//! The set of known directive lines, with the filter that keeps collection
//! noise out of it.

use vstd::prelude::*;
use crate::text::{
    chars_of, chomp, find_marker, first_marker, line_end, line_len, lemma_line_len_bounds, same_chars,
    slice_chars, split_lines, starts_with, string_of, text_lines, trim, trim_range, range_starts_with,
};

verus! {

/// Body prefix of an internal lint-suppression comment, never a directive.
pub open spec fn lint_prefix() -> Seq<char> {
    "ignore-tidy"@
}

/// Whether a collected line may take part in matching: it is not blank, not a
/// bare `//`, not a `#` comment, and its body after the first `//` does not
/// start with the lint-suppression prefix.
pub open spec fn header_keep(h: Seq<char>) -> bool {
    let t = trim(h);
    &&& t.len() > 0
    &&& t != seq!['/', '/']
    &&& t[0] != '#'
    &&& match first_marker(h) {
        Some(p) => !starts_with(trim(h.skip(p + 2)), lint_prefix()),
        None => true,
    }
}

/// A collected line whose body after the first `//` starts with the
/// lint-suppression prefix is never kept; with `DirectiveSet::build`, such a
/// line ends up in the set only when it is given as an override.
pub proof fn lemma_lint_suppression_dropped(h: Seq<char>)
    requires
        first_marker(h) matches Some(p) && starts_with(trim(h.skip(p + 2)), lint_prefix()),
    ensures
        !header_keep(h),
{
}

/// Whether the collected line `h` may take part in matching.
pub fn is_matchable(h: &str) -> (r: bool)
    ensures
        r == header_keep(h@),
{
    let c = chars_of(h);
    is_matchable_chars(&c)
}

fn is_matchable_chars(c: &Vec<char>) -> (r: bool)
    ensures
        r == header_keep(c@),
{
    let n = c.len();
    let (a, b) = trim_range(c, 0, n);
    let ghost t = c@.subrange(a as int, b as int);
    assert(c@.subrange(0, n as int) =~= c@);
    if a == b {
        return false;
    }
    if b - a == 2 && c[a] == '/' && c[a + 1] == '/' {
        assert(t =~= seq!['/', '/']);
        return false;
    }
    if c[a] == '#' {
        return false;
    }
    match find_marker(c) {
        Some(p) => {
            let (x, y) = trim_range(c, p + 2, n);
            assert(c@.subrange(p + 2, n as int) =~= c@.skip(p + 2));
            let pre = chars_of("ignore-tidy");
            !range_starts_with(c, x, y, &pre)
        },
        None => true,
    }
}

/// `x` is a line of the primary list or of one of the secondary files.
pub open spec fn collected(x: Seq<char>, primary: Seq<char>, secondary: Seq<String>) -> bool {
    text_lines(primary).contains(x) || exists|k: int|
        0 <= k < secondary.len() && #[trigger] text_lines(secondary[k]@).contains(x)
}

/// Known directive lines, each held once, in order of first insertion.
pub struct DirectiveSet {
    texts: Vec<String>,
    chars: Vec<Vec<char>>,
}

impl View for DirectiveSet {
    type V = Seq<Seq<char>>;

    closed spec fn view(&self) -> Seq<Seq<char>> {
        Seq::new(self.texts.len() as nat, |i: int| self.texts[i]@)
    }
}

impl DirectiveSet {
    /// Both representations agree and no line is held twice.
    pub closed spec fn wf(&self) -> bool {
        &&& self.texts.len() == self.chars.len()
        &&& forall|i: int| 0 <= i < self.texts.len() ==> #[trigger] self.chars[i]@ == self.texts[i]@
        &&& self@.no_duplicates()
    }

    pub fn new() -> (r: DirectiveSet)
        ensures
            r.wf(),
            r@ == Seq::<Seq<char>>::empty(),
    {
        let r = DirectiveSet { texts: Vec::new(), chars: Vec::new() };
        assert(r@ =~= Seq::<Seq<char>>::empty());
        r
    }

    pub fn len(&self) -> (r: usize)
        requires
            self.wf(),
        ensures
            r == self@.len(),
    {
        self.texts.len()
    }

    /// The `i`-th line in order of insertion.
    pub fn get(&self, i: usize) -> (r: &String)
        requires
            self.wf(),
            i < self@.len(),
        ensures
            r@ == self@[i as int],
    {
        &self.texts[i]
    }

    /// Whether the set holds the line whose characters are `x`.
    pub fn contains_chars(&self, x: &Vec<char>) -> (r: bool)
        requires
            self.wf(),
        ensures
            r == self@.contains(x@),
    {
        let mut i: usize = 0;
        while i < self.chars.len()
            invariant
                self.wf(),
                i <= self.chars.len(),
                forall|j: int| 0 <= j < i ==> self@[j] != x@,
            decreases self.chars.len() - i,
        {
            if same_chars(&self.chars[i], x) {
                assert(self@[i as int] == x@);
                return true;
            }
            i += 1;
        }
        false
    }

    /// Whether the set holds `s`.
    pub fn contains(&self, s: &str) -> (r: bool)
        requires
            self.wf(),
        ensures
            r == self@.contains(s@),
    {
        let c = chars_of(s);
        self.contains_chars(&c)
    }

    /// Adds the line `s`, whose characters are `c`, unless it is held already.
    fn insert_chars(&mut self, s: String, c: Vec<char>)
        requires
            old(self).wf(),
            c@ == s@,
        ensures
            final(self).wf(),
            final(self)@ == if old(self)@.contains(s@) {
                old(self)@
            } else {
                old(self)@.push(s@)
            },
    {
        if self.contains_chars(&c) {
            return;
        }
        let ghost before = self@;
        self.texts.push(s);
        self.chars.push(c);
        proof {
            assert(self@ =~= before.push(c@));
            assert forall|i: int| 0 <= i < self.texts.len() implies #[trigger] self.chars[i]@
                == self.texts[i]@ by {
                if i < before.len() {
                    assert(self.chars[i] == old(self).chars[i]);
                    assert(self.texts[i] == old(self).texts[i]);
                }
            }
            assert forall|i: int, j: int|
                0 <= i < self@.len() && 0 <= j < self@.len() && i != j implies self@[i]
                != self@[j] by {
                if i < before.len() && j < before.len() {
                    assert(self@[i] == before[i] && self@[j] == before[j]);
                } else if i < before.len() {
                    assert(self@[i] == before[i]);
                } else if j < before.len() {
                    assert(self@[j] == before[j]);
                }
            }
        }
    }

    /// Adds the line `s` as given, unless it is held already. Lines added this
    /// way bypass the collection filter.
    pub fn insert(&mut self, s: &str)
        requires
            old(self).wf(),
        ensures
            final(self).wf(),
            final(self)@ == if old(self)@.contains(s@) {
                old(self)@
            } else {
                old(self)@.push(s@)
            },
    {
        let c = chars_of(s);
        self.insert_chars(String::from_str(s), c);
    }

    /// Adds the collected line `h` if it passes the collection filter and is
    /// not held already.
    pub fn insert_collected(&mut self, h: &str)
        requires
            old(self).wf(),
        ensures
            final(self).wf(),
            final(self)@ == if header_keep(h@) && !old(self)@.contains(h@) {
                old(self)@.push(h@)
            } else {
                old(self)@
            },
    {
        let c = chars_of(h);
        if is_matchable_chars(&c) {
            self.insert_chars(String::from_str(h), c);
        }
    }

    /// The set used for matching: the filtered lines of the primary list and
    /// of every secondary file, then the overrides, which bypass the filter.
    pub fn build(primary: &str, secondary: &Vec<String>, overrides: &Vec<String>) -> (r:
        DirectiveSet)
        ensures
            r.wf(),
            forall|x: Seq<char>|
                #![trigger r@.contains(x)]
                r@.contains(x) <==> ((header_keep(x) && collected(x, primary@, secondary@))
                    || exists|j: int| 0 <= j < overrides.len() && #[trigger] overrides[j]@ == x),
    {
        let mut r = DirectiveSet::new();
        r.add_collected_text(primary);
        let mut i: usize = 0;
        while i < secondary.len()
            invariant
                r.wf(),
                i <= secondary.len(),
                forall|x: Seq<char>|
                    #![trigger r@.contains(x)]
                    r@.contains(x) <==> (header_keep(x) && (text_lines(primary@).contains(x)
                        || exists|k: int|
                        0 <= k < i && #[trigger] text_lines(secondary[k]@).contains(x))),
            decreases secondary.len() - i,
        {
            r.add_collected_text(secondary[i].as_str());
            proof {
                assert forall|x: Seq<char>| #![trigger r@.contains(x)]
                    r@.contains(x) <==> (header_keep(x) && (text_lines(primary@).contains(x)
                        || exists|k: int|
                        0 <= k < i + 1 && #[trigger] text_lines(secondary[k]@).contains(x))) by {
                    if exists|k: int| 0 <= k < i + 1 && #[trigger] text_lines(secondary[k]@).contains(x) {
                        let k = choose|k: int| 0 <= k < i + 1 && #[trigger] text_lines(secondary[k]@).contains(x);
                        if k < i {
                        }
                    }
                }
            }
            i += 1;
        }
        let mut j: usize = 0;
        while j < overrides.len()
            invariant
                r.wf(),
                j <= overrides.len(),
                forall|x: Seq<char>|
                    #![trigger r@.contains(x)]
                    r@.contains(x) <==> ((header_keep(x) && collected(x, primary@, secondary@))
                        || exists|m: int| 0 <= m < j && #[trigger] overrides[m]@ == x),
            decreases overrides.len() - j,
        {
            let ghost prev = r@;
            r.insert(overrides[j].as_str());
            proof {
                assert forall|x: Seq<char>| #![trigger r@.contains(x)]
                    r@.contains(x) <==> ((header_keep(x) && collected(x, primary@, secondary@))
                        || exists|m: int| 0 <= m < j + 1 && #[trigger] overrides[m]@ == x) by {
                    if prev.contains(x) {
                        let k = choose|k: int| 0 <= k < prev.len() && prev[k] == x;
                        assert(r@[k] == x);
                    }
                    if r@.contains(x) && !prev.contains(x) {
                        let k = choose|k: int| 0 <= k < r@.len() && r@[k] == x;
                        if k < prev.len() {
                            assert(prev[k] == x);
                        }
                        assert(overrides[j as int]@ == x);
                    }
                    if x == overrides[j as int]@ && !prev.contains(x) {
                        assert(r@[prev.len() as int] == x);
                    }
                }
            }
            j += 1;
        }
        r
    }

    /// Adds every line of `text` (one directive per line, as `str::lines`
    /// splits it) that passes the collection filter.
    pub fn add_collected_text(&mut self, text: &str)
        requires
            old(self).wf(),
        ensures
            final(self).wf(),
            forall|x: Seq<char>|
                #![trigger final(self)@.contains(x)]
                final(self)@.contains(x) <==> (old(self)@.contains(x) || (header_keep(x)
                    && text_lines(text@).contains(x))),
    {
        let c = chars_of(text);
        let n = c.len();
        let mut i: usize = 0;
        let ghost done: Seq<Seq<char>> = seq![];
        assert(c@.skip(0) =~= c@);
        while i < n
            invariant
                self.wf(),
                n == c.len(),
                c@ == text@,
                i <= n,
                split_lines(c@) == done + split_lines(c@.skip(i as int)),
                forall|x: Seq<char>|
                    #![trigger self@.contains(x)]
                    self@.contains(x) <==> (old(self)@.contains(x) || (header_keep(x)
                        && done.map_values(|l: Seq<char>| chomp(l)).contains(x))),
            decreases n - i,
        {
            let e = line_end(&c, i);
            let ghost line = c@.subrange(i as int, e as int);
            proof {
                let rest = c@.skip(i as int);
                assert(c@.subrange(i as int, n as int) =~= rest);
                lemma_line_len_bounds(rest);
                assert(rest.take(line_len(rest) as int) =~= line);
                assert(rest.skip(line_len(rest) as int) =~= c@.skip(e as int));
                assert(split_lines(rest) == seq![line] + split_lines(c@.skip(e as int)));
                assert(done + split_lines(rest) =~= done.push(line) + split_lines(c@.skip(e as int)));
            }
            let mut end = e;
            if end > i && c[end - 1] == '\n' {
                end = end - 1;
                if end > i && c[end - 1] == '\r' {
                    end = end - 1;
                }
            }
            let ghost h = chomp(line);
            proof {
                if line.len() > 0 && line.last() == '\n' {
                    assert(line.drop_last() =~= c@.subrange(i as int, e - 1));
                    if e - 1 > i && c@[e - 2] == '\r' {
                        assert(line.drop_last().drop_last() =~= c@.subrange(i as int, e - 2));
                    }
                }
                assert(h =~= c@.subrange(i as int, end as int));
            }
            let s = string_of(&c, i, end);
            let sc = slice_chars(&c, i, end);
            let ghost prev = self@;
            if is_matchable_chars(&sc) {
                self.insert_chars(s, sc);
            }
            proof {
                let d2 = done.push(line);
                assert(d2.map_values(|l: Seq<char>| chomp(l)) =~= done.map_values(
                    |l: Seq<char>| chomp(l),
                ).push(h));
                assert forall|x: Seq<char>| #![trigger self@.contains(x)]
                    self@.contains(x) <==> (old(self)@.contains(x) || (header_keep(x)
                        && d2.map_values(|l: Seq<char>| chomp(l)).contains(x))) by {
                    let m = done.map_values(|l: Seq<char>| chomp(l));
                    if m.push(h).contains(x) && x != h {
                        let k = choose|k: int| 0 <= k < m.push(h).len() && m.push(h)[k] == x;
                        assert(m[k] == x);
                    }
                    if m.contains(x) {
                        let k = choose|k: int| 0 <= k < m.len() && m[k] == x;
                        assert(m.push(h)[k] == x);
                    }
                    assert(m.push(h)[m.len() as int] == h);
                    if self@.contains(x) && !prev.contains(x) {
                        let k = choose|k: int| 0 <= k < self@.len() && self@[k] == x;
                        if k < prev.len() {
                            assert(prev[k] == x);
                        }
                    }
                    if prev.contains(x) {
                        let k = choose|k: int| 0 <= k < prev.len() && prev[k] == x;
                        assert(self@[k] == x);
                    }
                    if header_keep(h) && !prev.contains(h) {
                        assert(self@[prev.len() as int] == h);
                    }
                }
                done = d2;
            }
            i = e;
        }
        proof {
            assert(c@.skip(n as int).len() == 0);
            assert(done + split_lines(c@.skip(n as int)) =~= done);
        }
    }
}

} // verus!
