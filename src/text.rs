//! Character-level primitives over strings viewed as `Seq<char>`: whitespace
//! trimming, the `//` comment marker, line boundaries and line terminators.

use vstd::prelude::*;

verus! {

/// Unicode `White_Space`, the class that `str::trim` removes.
pub open spec fn is_ws(c: char) -> bool {
    let u = c as u32;
    u == 0x20 || (0x09 <= u && u <= 0x0d) || u == 0x85 || u == 0xa0 || u == 0x1680
        || (0x2000 <= u && u <= 0x200a) || u == 0x2028 || u == 0x2029 || u == 0x202f
        || u == 0x205f || u == 0x3000
}

/// A line-terminator character.
pub open spec fn is_break(c: char) -> bool {
    c == '\r' || c == '\n'
}

/// Number of leading whitespace characters.
pub open spec fn ws_len(s: Seq<char>) -> nat
    decreases s.len(),
{
    if s.len() > 0 && is_ws(s[0]) {
        1 + ws_len(s.drop_first())
    } else {
        0
    }
}

/// Number of trailing whitespace characters.
pub open spec fn ws_tail_len(s: Seq<char>) -> nat
    decreases s.len(),
{
    if s.len() > 0 && is_ws(s.last()) {
        1 + ws_tail_len(s.drop_last())
    } else {
        0
    }
}

/// `s` without its leading whitespace.
pub open spec fn trim_start(s: Seq<char>) -> Seq<char> {
    s.skip(ws_len(s) as int)
}

/// `s` without its trailing whitespace.
pub open spec fn trim_end(s: Seq<char>) -> Seq<char> {
    s.take(s.len() - ws_tail_len(s))
}

/// `s` without leading and trailing whitespace.
pub open spec fn trim(s: Seq<char>) -> Seq<char> {
    trim_end(trim_start(s))
}

pub open spec fn starts_with(s: Seq<char>, p: Seq<char>) -> bool {
    p.len() <= s.len() && s.take(p.len() as int) == p
}

/// The comment marker `//` starts at index `i`.
pub open spec fn marker_at(s: Seq<char>, i: int) -> bool {
    0 <= i && i + 1 < s.len() && s[i] == '/' && s[i + 1] == '/'
}

/// The first comment marker at or after index `i`.
pub open spec fn marker_from(s: Seq<char>, i: int) -> Option<int>
    decreases s.len() - i,
{
    if i < 0 || i + 1 >= s.len() {
        None
    } else if marker_at(s, i) {
        Some(i)
    } else {
        marker_from(s, i + 1)
    }
}

/// The position of the first comment marker of `s`, as `str::split_once("//")`
/// finds it.
pub open spec fn first_marker(s: Seq<char>) -> Option<int> {
    marker_from(s, 0)
}

/// The comment marker is the first non-whitespace content of `s`.
pub open spec fn has_leading_marker(s: Seq<char>) -> bool {
    marker_at(s, ws_len(s) as int)
}

/// Length of the first line of `s`, its `\n` terminator included.
pub open spec fn line_len(s: Seq<char>) -> nat
    decreases s.len(),
{
    if s.len() == 0 {
        0
    } else if s[0] == '\n' {
        1
    } else {
        1 + line_len(s.drop_first())
    }
}

/// The lines of `s`, each with its `\n` terminator; the last one may lack it.
pub open spec fn split_lines(s: Seq<char>) -> Seq<Seq<char>>
    decreases s.len(),
    via split_lines_decreases
{
    if s.len() == 0 {
        seq![]
    } else {
        let k = line_len(s) as int;
        seq![s.take(k)] + split_lines(s.skip(k))
    }
}

#[via_fn]
proof fn split_lines_decreases(s: Seq<char>) {
    lemma_line_len_bounds(s);
}

/// The lines of `s` as `str::lines` yields them.
pub open spec fn text_lines(s: Seq<char>) -> Seq<Seq<char>> {
    split_lines(s).map_values(|l: Seq<char>| chomp(l))
}

pub proof fn lemma_line_len_bounds(s: Seq<char>)
    ensures
        line_len(s) <= s.len(),
        s.len() > 0 ==> line_len(s) >= 1,
    decreases s.len(),
{
    if s.len() > 0 && s[0] != '\n' {
        lemma_line_len_bounds(s.drop_first());
    }
}

/// `s` with every `\r` and `\n` removed.
pub open spec fn strip_breaks(s: Seq<char>) -> Seq<char>
    decreases s.len(),
{
    if s.len() == 0 {
        s
    } else if is_break(s.last()) {
        strip_breaks(s.drop_last())
    } else {
        strip_breaks(s.drop_last()).push(s.last())
    }
}

pub proof fn lemma_strip_breaks_concat(a: Seq<char>, b: Seq<char>)
    ensures
        strip_breaks(a + b) == strip_breaks(a) + strip_breaks(b),
    decreases b.len(),
{
    if b.len() == 0 {
        assert(a + b =~= a);
        assert(strip_breaks(a) + strip_breaks(b) =~= strip_breaks(a));
    } else {
        assert((a + b).drop_last() =~= a + b.drop_last());
        assert((a + b).last() == b.last());
        lemma_strip_breaks_concat(a, b.drop_last());
        if !is_break(b.last()) {
            assert(strip_breaks(a) + strip_breaks(b.drop_last()).push(b.last()) =~= (strip_breaks(a)
                + strip_breaks(b.drop_last())).push(b.last()));
        }
    }
}

/// Removing line terminators from whitespace leaves whitespace.
pub proof fn lemma_strip_breaks_ws(s: Seq<char>)
    requires
        forall|j: int| 0 <= j < s.len() ==> is_ws(#[trigger] s[j]),
    ensures
        forall|j: int| 0 <= j < strip_breaks(s).len() ==> is_ws(#[trigger] strip_breaks(s)[j]),
    decreases s.len(),
{
    if s.len() > 0 {
        let t = s.drop_last();
        assert forall|j: int| 0 <= j < t.len() implies is_ws(#[trigger] t[j]) by {
            assert(t[j] == s[j]);
        }
        lemma_strip_breaks_ws(t);
        assert(is_ws(s[s.len() - 1]));
        let r = strip_breaks(t);
        if !is_break(s.last()) {
            assert forall|j: int| 0 <= j < r.len() + 1 implies is_ws(#[trigger] r.push(s.last())[j]) by {
                if j < r.len() {
                    assert(r.push(s.last())[j] == r[j]);
                }
            }
        }
    }
}

/// A text without line terminators is left as it is.
pub proof fn lemma_strip_breaks_plain(s: Seq<char>)
    requires
        forall|j: int| 0 <= j < s.len() ==> !is_break(#[trigger] s[j]),
    ensures
        strip_breaks(s) == s,
    decreases s.len(),
{
    if s.len() > 0 {
        let t = s.drop_last();
        assert forall|j: int| 0 <= j < t.len() implies !is_break(#[trigger] t[j]) by {
            assert(t[j] == s[j]);
        }
        lemma_strip_breaks_plain(t);
        assert(!is_break(s[s.len() - 1]));
        assert(t.push(s.last()) =~= s);
    }
}

/// The first line is terminated by its only `\n`, or is the whole text.
pub proof fn lemma_line_shape(s: Seq<char>)
    ensures
        forall|j: int| 0 <= j < line_len(s) - 1 ==> #[trigger] s[j] != '\n',
        (line_len(s) >= 1 && s[line_len(s) - 1] == '\n') || line_len(s) == s.len(),
    decreases s.len(),
{
    lemma_line_len_bounds(s);
    if s.len() > 0 && s[0] != '\n' {
        let t = s.drop_first();
        lemma_line_shape(t);
        assert forall|j: int| 0 <= j < line_len(s) - 1 implies #[trigger] s[j] != '\n' by {
            if j > 0 {
                assert(s[j] == t[j - 1]);
            }
        }
        if line_len(t) >= 1 && t[line_len(t) - 1] == '\n' {
            assert(s[line_len(s) - 1] == t[line_len(t) - 1]);
        }
    }
}

/// A line as `str::lines` yields it: without its `\n`, and without a `\r`
/// just before that `\n`.
pub open spec fn chomp(l: Seq<char>) -> Seq<char> {
    if l.len() > 0 && l.last() == '\n' {
        let m = l.drop_last();
        if m.len() > 0 && m.last() == '\r' {
            m.drop_last()
        } else {
            m
        }
    } else {
        l
    }
}

pub proof fn lemma_ws_len_bounds(s: Seq<char>)
    ensures
        ws_len(s) <= s.len(),
        forall|j: int| 0 <= j < ws_len(s) ==> is_ws(#[trigger] s[j]),
        ws_len(s) < s.len() ==> !is_ws(s[ws_len(s) as int]),
    decreases s.len(),
{
    if s.len() > 0 && is_ws(s[0]) {
        lemma_ws_len_bounds(s.drop_first());
        assert forall|j: int| 0 <= j < ws_len(s) implies is_ws(#[trigger] s[j]) by {
            if j > 0 {
                assert(s[j] == s.drop_first()[j - 1]);
            }
        }
    }
}

pub proof fn lemma_ws_tail_len_bounds(s: Seq<char>)
    ensures
        ws_tail_len(s) <= s.len(),
    decreases s.len(),
{
    if s.len() > 0 && is_ws(s.last()) {
        lemma_ws_tail_len_bounds(s.drop_last());
    }
}

/// Every character of `trim(s)` is a character of `s` at a shifted index.
pub proof fn lemma_trim_within(s: Seq<char>)
    ensures
        ws_len(s) + trim(s).len() <= s.len(),
        forall|j: int| 0 <= j < trim(s).len() ==> #[trigger] trim(s)[j] == s[ws_len(s) + j],
{
    lemma_ws_len_bounds(s);
    lemma_ws_tail_len_bounds(trim_start(s));
}

pub proof fn lemma_ws_len_unique(s: Seq<char>, k: int)
    requires
        0 <= k <= s.len(),
        forall|j: int| 0 <= j < k ==> is_ws(#[trigger] s[j]),
        k < s.len() ==> !is_ws(s[k]),
    ensures
        ws_len(s) == k,
    decreases k,
{
    if k > 0 {
        let t = s.drop_first();
        assert forall|j: int| 0 <= j < k - 1 implies is_ws(#[trigger] t[j]) by {
            assert(t[j] == s[j + 1]);
        }
        if k - 1 < t.len() {
            assert(t[k - 1] == s[k]);
        }
        lemma_ws_len_unique(t, k - 1);
    }
}

pub proof fn lemma_ws_tail_len_unique(s: Seq<char>, k: int)
    requires
        0 <= k <= s.len(),
        forall|j: int| s.len() - k <= j < s.len() ==> is_ws(#[trigger] s[j]),
        k < s.len() ==> !is_ws(s[s.len() - k - 1]),
    ensures
        ws_tail_len(s) == k,
    decreases k,
{
    if k > 0 {
        let t = s.drop_last();
        assert forall|j: int| t.len() - (k - 1) <= j < t.len() implies is_ws(#[trigger] t[j]) by {
            assert(t[j] == s[j]);
        }
        if k - 1 < t.len() {
            assert(t[t.len() - (k - 1) - 1] == s[s.len() - k - 1]);
        }
        assert(s.last() == s[s.len() - 1]);
        lemma_ws_tail_len_unique(t, k - 1);
    } else if s.len() > 0 {
        assert(s.last() == s[s.len() - 1]);
    }
}

/// `marker_from` finds the marker at `p` when none lies between `i` and `p`.
pub proof fn lemma_marker_from_unique(s: Seq<char>, i: int, p: int)
    requires
        0 <= i <= p,
        marker_at(s, p),
        forall|j: int| i <= j < p ==> !marker_at(s, j),
    ensures
        marker_from(s, i) == Some(p),
    decreases p - i,
{
    if i < p {
        lemma_marker_from_unique(s, i + 1, p);
    }
}

/// When the marker leads the line, it is the line's first marker.
pub proof fn lemma_leading_marker_first(s: Seq<char>)
    requires
        has_leading_marker(s),
    ensures
        first_marker(s) == Some(ws_len(s) as int),
{
    lemma_ws_len_bounds(s);
    assert forall|j: int| 0 <= j < ws_len(s) implies !marker_at(s, j) by {
        assert(is_ws(s[j]));
    }
    lemma_marker_from_unique(s, 0, ws_len(s) as int);
}

pub proof fn lemma_line_len_unique(s: Seq<char>, k: int)
    requires
        0 <= k <= s.len(),
        forall|j: int| 0 <= j < k - 1 ==> #[trigger] s[j] != '\n',
        (k >= 1 && s[k - 1] == '\n') || (k == s.len() && (k == 0 || s[k - 1] != '\n')),
    ensures
        line_len(s) == k,
    decreases k,
{
    if k > 1 {
        let t = s.drop_first();
        assert(s[0] != '\n');
        assert forall|j: int| 0 <= j < k - 2 implies #[trigger] t[j] != '\n' by {
            assert(t[j] == s[j + 1]);
        }
        assert(t[k - 2] == s[k - 1]);
        lemma_line_len_unique(t, k - 1);
        assert(line_len(s) == 1 + line_len(t));
    } else if k == 1 && s[0] != '\n' {
        assert(s.drop_first().len() == 0);
        assert(line_len(s.drop_first()) == 0);
    }
}

/// Whitespace test for one character; agrees with `char::is_whitespace`.
pub fn is_whitespace(c: char) -> (r: bool)
    ensures
        r == is_ws(c),
{
    let u = c as u32;
    u == 0x20 || (0x09 <= u && u <= 0x0d) || u == 0x85 || u == 0xa0 || u == 0x1680
        || (0x2000 <= u && u <= 0x200a) || u == 0x2028 || u == 0x2029 || u == 0x202f
        || u == 0x205f || u == 0x3000
}

/// Relies on `String::push`, which appends one character to the string.
pub assume_specification[ String::push ](s: &mut String, ch: char)
    ensures
        final(s)@ == old(s)@.push(ch),
;

/// A string holding the characters of the range `a..b` of `s`.
pub fn string_of(s: &Vec<char>, a: usize, b: usize) -> (r: String)
    requires
        a <= b <= s.len(),
    ensures
        r@ == s@.subrange(a as int, b as int),
{
    let mut r = String::new();
    let mut i = a;
    while i < b
        invariant
            a <= i <= b <= s.len(),
            r@ == s@.subrange(a as int, i as int),
        decreases b - i,
    {
        r.push(s[i]);
        assert(s@.subrange(a as int, i + 1) =~= s@.subrange(a as int, i as int).push(s@[i as int]));
        i += 1;
    }
    r
}

/// A vector holding the characters of the range `a..b` of `s`.
pub fn slice_chars(s: &Vec<char>, a: usize, b: usize) -> (r: Vec<char>)
    requires
        a <= b <= s.len(),
    ensures
        r@ == s@.subrange(a as int, b as int),
{
    let mut r: Vec<char> = Vec::new();
    let mut i = a;
    while i < b
        invariant
            a <= i <= b <= s.len(),
            r@ == s@.subrange(a as int, i as int),
        decreases b - i,
    {
        r.push(s[i]);
        assert(s@.subrange(a as int, i + 1) =~= s@.subrange(a as int, i as int).push(s@[i as int]));
        i += 1;
    }
    r
}

/// Copies the characters of `s` into a vector.
pub fn chars_of(s: &str) -> (r: Vec<char>)
    ensures
        r@ == s@,
{
    let mut r: Vec<char> = Vec::new();
    for c in it: s.chars()
        invariant
            r@ == it.seq().take(it.index() as int),
    {
        r.push(c);
    }
    r
}

/// Position of the first `//` in `s`.
pub fn find_marker(s: &Vec<char>) -> (r: Option<usize>)
    ensures
        r matches Some(p) ==> first_marker(s@) == Some(p as int) && marker_at(s@, p as int),
        r is None ==> first_marker(s@) is None,
{
    let n = s.len();
    let mut i: usize = 0;
    while n >= 2 && i < n - 1
        invariant
            n == s.len(),
            i <= n,
            marker_from(s@, 0) == marker_from(s@, i as int),
        decreases n - i,
    {
        if s[i] == '/' && s[i + 1] == '/' {
            return Some(i);
        }
        i += 1;
    }
    None
}

/// End of the line that starts at `a`, its `\n` included.
pub fn line_end(s: &Vec<char>, a: usize) -> (r: usize)
    requires
        a <= s.len(),
    ensures
        a <= r <= s.len(),
        r - a == line_len(s@.subrange(a as int, s.len() as int)),
        a < s.len() ==> a < r,
{
    let n = s.len();
    let mut i = a;
    while i < n && s[i] != '\n'
        invariant
            n == s.len(),
            a <= i <= n,
            forall|j: int| a <= j < i ==> #[trigger] s@[j] != '\n',
        decreases n - i,
    {
        i += 1;
    }
    let r = if i < n {
        i + 1
    } else {
        i
    };
    proof {
        let t = s@.subrange(a as int, n as int);
        assert forall|j: int| 0 <= j < r - a - 1 implies #[trigger] t[j] != '\n' by {
            assert(t[j] == s@[a + j]);
        }
        if r - a >= 1 {
            assert(t[r - a - 1] == s@[r - 1]);
        }
        lemma_line_len_unique(t, r - a);
    }
    r
}

/// The characters of the range `a..b` of `s` with `\r` and `\n` left out.
pub fn strip_breaks_of(s: &Vec<char>, a: usize, b: usize) -> (r: Vec<char>)
    requires
        a <= b <= s.len(),
    ensures
        r@ == strip_breaks(s@.subrange(a as int, b as int)),
{
    let mut r: Vec<char> = Vec::new();
    let mut i = a;
    while i < b
        invariant
            a <= i <= b <= s.len(),
            r@ == strip_breaks(s@.subrange(a as int, i as int)),
        decreases b - i,
    {
        let c = s[i];
        proof {
            let t = s@.subrange(a as int, i + 1);
            assert(t.drop_last() =~= s@.subrange(a as int, i as int));
            assert(t.last() == c);
        }
        if c != '\r' && c != '\n' {
            r.push(c);
        }
        i += 1;
    }
    r
}

/// Whether the range `a..b` of `s` starts with `p`.
pub fn range_starts_with(s: &Vec<char>, a: usize, b: usize, p: &Vec<char>) -> (r: bool)
    requires
        a <= b <= s.len(),
    ensures
        r == starts_with(s@.subrange(a as int, b as int), p@),
{
    if p.len() > b - a {
        return false;
    }
    let ghost t = s@.subrange(a as int, b as int);
    let mut i: usize = 0;
    while i < p.len()
        invariant
            p.len() <= b - a,
            a <= b <= s.len(),
            t == s@.subrange(a as int, b as int),
            i <= p.len(),
            forall|j: int| 0 <= j < i ==> t[j] == p@[j],
        decreases p.len() - i,
    {
        if s[a + i] != p[i] {
            assert(t.take(p.len() as int)[i as int] != p@[i as int]);
            return false;
        }
        i += 1;
    }
    assert(t.take(p.len() as int) =~= p@);
    true
}

/// Whether `a` and `b` hold the same characters.
pub fn same_chars(a: &Vec<char>, b: &Vec<char>) -> (r: bool)
    ensures
        r == (a@ == b@),
{
    if a.len() != b.len() {
        return false;
    }
    let mut i: usize = 0;
    while i < a.len()
        invariant
            a.len() == b.len(),
            i <= a.len(),
            forall|j: int| 0 <= j < i ==> a@[j] == b@[j],
        decreases a.len() - i,
    {
        if a[i] != b[i] {
            return false;
        }
        i += 1;
    }
    assert(a@ =~= b@);
    true
}

/// Bounds of `trim` of the range `a..b` of `s`.
pub fn trim_range(s: &Vec<char>, a: usize, b: usize) -> (r: (usize, usize))
    requires
        a <= b <= s.len(),
    ensures
        a <= r.0 <= r.1 <= b,
        s@.subrange(r.0 as int, r.1 as int) == trim(s@.subrange(a as int, b as int)),
{
    let x = skip_ws(s, a, b);
    let y = skip_ws_back(s, x, b);
    proof {
        let t = s@.subrange(a as int, b as int);
        assert(trim_start(t) =~= s@.subrange(x as int, b as int));
        assert(trim_end(trim_start(t)) =~= s@.subrange(x as int, y as int));
    }
    (x, y)
}

/// Start of `trim_start` of the range `a..b` of `s`.
pub fn skip_ws(s: &Vec<char>, a: usize, b: usize) -> (r: usize)
    requires
        a <= b <= s.len(),
    ensures
        a <= r <= b,
        r - a == ws_len(s@.subrange(a as int, b as int)),
{
    let mut i = a;
    while i < b && is_whitespace(s[i])
        invariant
            a <= i <= b <= s.len(),
            forall|j: int| a <= j < i ==> is_ws(#[trigger] s@[j]),
        decreases b - i,
    {
        i += 1;
    }
    proof {
        let t = s@.subrange(a as int, b as int);
        assert forall|j: int| 0 <= j < i - a implies is_ws(#[trigger] t[j]) by {
            assert(t[j] == s@[a + j]);
        }
        if i - a < t.len() {
            assert(t[i - a] == s@[i as int]);
        }
        lemma_ws_len_unique(t, i - a);
    }
    i
}

/// End of `trim_end` of the range `a..b` of `s`.
pub fn skip_ws_back(s: &Vec<char>, a: usize, b: usize) -> (r: usize)
    requires
        a <= b <= s.len(),
    ensures
        a <= r <= b,
        b - r == ws_tail_len(s@.subrange(a as int, b as int)),
{
    let mut i = b;
    while i > a && is_whitespace(s[i - 1])
        invariant
            a <= i <= b <= s.len(),
            forall|j: int| i <= j < b ==> is_ws(#[trigger] s@[j]),
        decreases i - a,
    {
        i -= 1;
    }
    proof {
        let t = s@.subrange(a as int, b as int);
        assert forall|j: int| t.len() - (b - i) <= j < t.len() implies is_ws(#[trigger] t[j]) by {
            assert(t[j] == s@[a + j]);
        }
        if b - i < t.len() {
            assert(t[t.len() - (b - i) - 1] == s@[i - 1]);
        }
        lemma_ws_tail_len_unique(t, b - i);
    }
    i
}

} // verus!
