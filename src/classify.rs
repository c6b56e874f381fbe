//! Deciding, line by line, whether a comment is a known directive, and
//! rewriting the marker of those that are.

use vstd::prelude::*;
use crate::directive_set::DirectiveSet;
use crate::text::{
    chars_of, first_marker, has_leading_marker, is_break, is_ws, lemma_leading_marker_first,
    lemma_line_len_bounds, lemma_line_len_unique, lemma_ws_len_bounds, lemma_ws_len_unique,
    lemma_line_shape, lemma_strip_breaks_concat, lemma_strip_breaks_plain, lemma_strip_breaks_ws,
    line_end, line_len, marker_at, skip_ws, split_lines, string_of, strip_breaks,
    strip_breaks_of, ws_len,
};

verus! {

/// The directive marker that replaces a leading `//`.
pub open spec fn directive_marker() -> Seq<char> {
    seq!['/', '/', '@']
}

/// The line rewritten when it is a known directive: its leading `//` becomes
/// `//@`. A line is a known directive when `//` is its first non-whitespace
/// content and, with every `\r` and `\n` removed, it equals a member of `set`.
pub open spec fn classify(set: Seq<Seq<char>>, l: Seq<char>) -> Option<Seq<char>> {
    if has_leading_marker(l) && set.contains(strip_breaks(l)) {
        let p = ws_len(l) as int;
        Some(l.take(p) + directive_marker() + l.skip(p + 2))
    } else {
        None
    }
}

/// The line as it is written out.
pub open spec fn rewritten_line(set: Seq<Seq<char>>, l: Seq<char>) -> Seq<char> {
    match classify(set, l) {
        Some(r) => r,
        None => l,
    }
}

/// The whole text, each of its lines rewritten.
pub open spec fn rewrite_text(set: Seq<Seq<char>>, t: Seq<char>) -> Seq<char>
    decreases t.len(),
    via rewrite_text_decreases
{
    if t.len() == 0 {
        t
    } else {
        let k = line_len(t) as int;
        rewritten_line(set, t.take(k)) + rewrite_text(set, t.skip(k))
    }
}

#[via_fn]
proof fn rewrite_text_decreases(set: Seq<Seq<char>>, t: Seq<char>) {
    lemma_line_len_bounds(t);
}

/// A line already in the migrated form: `//@` is its first non-whitespace
/// content.
pub open spec fn is_migrated(e: Seq<char>) -> bool {
    let p = ws_len(e) as int;
    marker_at(e, p) && p + 2 < e.len() && e[p + 2] == '@'
}

/// A line that matches a member of the set, with `//` as its first
/// non-whitespace content, comes out with its first `//` replaced by `//@`
/// and every other character, its terminator included, unchanged.
pub proof fn lemma_marker_substitution(set: Seq<Seq<char>>, l: Seq<char>)
    requires
        has_leading_marker(l),
        set.contains(strip_breaks(l)),
    ensures
        first_marker(l) matches Some(p) && rewritten_line(set, l) == l.take(p) + directive_marker()
            + l.skip(p + 2),
{
    lemma_leading_marker_first(l);
}

/// A text none of whose lines matches a member of the set, once its `\r` and
/// `\n` are removed, comes out unchanged.
pub proof fn lemma_unmatched_text_unchanged(set: Seq<Seq<char>>, t: Seq<char>)
    requires
        forall|i: int|
            0 <= i < split_lines(t).len() ==> !set.contains(strip_breaks(#[trigger] split_lines(t)[i])),
    ensures
        rewrite_text(set, t) == t,
    decreases t.len(),
{
    if t.len() > 0 {
        let k = line_len(t) as int;
        lemma_line_len_bounds(t);
        let rest = t.skip(k);
        assert(split_lines(t) == seq![t.take(k)] + split_lines(rest));
        assert(split_lines(t)[0] == t.take(k));
        assert forall|i: int| 0 <= i < split_lines(rest).len() implies !set.contains(
            strip_breaks(#[trigger] split_lines(rest)[i]),
        ) by {
            assert(split_lines(t)[i + 1] == split_lines(rest)[i]);
        }
        lemma_unmatched_text_unchanged(set, rest);
        assert(t.take(k) + rest =~= t);
    }
}

/// Rewriting a line twice gives what rewriting it once gives, when no member
/// of the set is already in the `//@` form.
pub proof fn lemma_rewritten_line_stable(set: Seq<Seq<char>>, l: Seq<char>)
    requires
        forall|i: int| 0 <= i < set.len() ==> !is_migrated(#[trigger] set[i]),
    ensures
        rewritten_line(set, rewritten_line(set, l)) == rewritten_line(set, l),
{
    if let Some(r) = classify(set, l) {
        let p = ws_len(l) as int;
        lemma_ws_len_bounds(l);
        let w = l.take(p);
        let z = l.skip(p + 2);
        assert(r == w + directive_marker() + z);
        if has_leading_marker(r) && set.contains(strip_breaks(r)) {
            let e = strip_breaks(r);
            lemma_strip_breaks_concat(w + directive_marker(), z);
            lemma_strip_breaks_concat(w, directive_marker());
            assert forall|j: int| 0 <= j < 3 implies !is_break(#[trigger] directive_marker()[j]) by {
            }
            lemma_strip_breaks_plain(directive_marker());
            assert forall|j: int| 0 <= j < w.len() implies is_ws(#[trigger] w[j]) by {
                assert(w[j] == l[j]);
            }
            lemma_strip_breaks_ws(w);
            let sw = strip_breaks(w);
            assert(e == sw + directive_marker() + strip_breaks(z));
            assert forall|j: int| 0 <= j < sw.len() implies is_ws(#[trigger] e[j]) by {
                assert(e[j] == sw[j]);
            }
            assert(e[sw.len() as int] == '/');
            assert(e[sw.len() as int + 1] == '/');
            assert(e[sw.len() as int + 2] == '@');
            lemma_ws_len_unique(e, sw.len() as int);
            assert(is_migrated(e));
            let i = choose|i: int| 0 <= i < set.len() && set[i] == e;
            assert(!is_migrated(set[i]));
        }
    }
}

/// Rewriting the first line of `t` keeps it a single line: followed by the
/// rewritten rest `big_r`, it is still the first line.
proof fn lemma_rewritten_first_line(set: Seq<Seq<char>>, t: Seq<char>, big_r: Seq<char>)
    requires
        t.len() > 0,
        t.skip(line_len(t) as int).len() == 0 ==> big_r.len() == 0,
    ensures
        rewritten_line(set, t.take(line_len(t) as int)).len() > 0,
        line_len(rewritten_line(set, t.take(line_len(t) as int)) + big_r) == rewritten_line(
            set,
            t.take(line_len(t) as int),
        ).len(),
{
    let k = line_len(t) as int;
    lemma_line_len_bounds(t);
    lemma_line_shape(t);
    let l = t.take(k);
    let r = rewritten_line(set, l);
    let u = r + big_r;
    assert(forall|j: int| 0 <= j < l.len() - 1 ==> #[trigger] l[j] == t[j]);
    assert forall|j: int| 0 <= j < r.len() - 1 implies #[trigger] u[j] != '\n' by {
        assert(u[j] == r[j]);
        if classify(set, l) is Some {
            let p = ws_len(l) as int;
            if j < p {
                assert(r[j] == l[j]);
            } else if j >= p + 3 {
                assert(r[j] == l[j - 1]);
                assert(t[j - 1] != '\n');
            }
        } else {
            assert(t[j] != '\n');
        }
    }
    if l.len() > 0 && l[l.len() - 1] == '\n' {
        assert(u[r.len() - 1] == r[r.len() - 1]);
        if classify(set, l) is Some {
            let p = ws_len(l) as int;
            assert(l[p] == '/');
            assert(r[r.len() - 1] == l[l.len() - 1]);
        }
        lemma_line_len_unique(u, r.len() as int);
    } else {
        assert(u =~= r);
        if classify(set, l) is Some {
            let p = ws_len(l) as int;
            if l.len() > p + 2 {
                assert(r[r.len() - 1] == l[l.len() - 1]);
            } else {
                assert(r[r.len() - 1] == '@');
            }
        }
        lemma_line_len_unique(u, r.len() as int);
    }
}

/// Migrating a text a second time changes nothing, when no member of the set
/// is already in the `//@` form.
pub proof fn lemma_migration_idempotent(set: Seq<Seq<char>>, t: Seq<char>)
    requires
        forall|i: int| 0 <= i < set.len() ==> !is_migrated(#[trigger] set[i]),
    ensures
        rewrite_text(set, rewrite_text(set, t)) == rewrite_text(set, t),
    decreases t.len(),
{
    if t.len() > 0 {
        let k = line_len(t) as int;
        lemma_line_len_bounds(t);
        let l = t.take(k);
        let rest = t.skip(k);
        let r = rewritten_line(set, l);
        let big_r = rewrite_text(set, rest);
        lemma_migration_idempotent(set, rest);
        lemma_rewritten_line_stable(set, l);
        lemma_rewritten_first_line(set, t, big_r);
        let u = r + big_r;
        assert(rewrite_text(set, t) == u);
        assert(u.take(r.len() as int) =~= r);
        assert(u.skip(r.len() as int) =~= big_r);
    }
}

/// The migrated text has as many lines as the original, and each of its lines
/// is the corresponding original line, rewritten.
pub proof fn lemma_lines_rewritten(set: Seq<Seq<char>>, t: Seq<char>)
    ensures
        split_lines(rewrite_text(set, t)) == split_lines(t).map_values(
            |l: Seq<char>| rewritten_line(set, l),
        ),
    decreases t.len(),
{
    if t.len() == 0 {
        assert(split_lines(t).map_values(|l: Seq<char>| rewritten_line(set, l)) =~= seq![]);
    } else {
        let k = line_len(t) as int;
        lemma_line_len_bounds(t);
        let l = t.take(k);
        let rest = t.skip(k);
        let r = rewritten_line(set, l);
        let big_r = rewrite_text(set, rest);
        lemma_lines_rewritten(set, rest);
        lemma_rewritten_first_line(set, t, big_r);
        let u = r + big_r;
        assert(rewrite_text(set, t) == u);
        assert(u.take(r.len() as int) =~= r);
        assert(u.skip(r.len() as int) =~= big_r);
        assert(split_lines(u) == seq![r] + split_lines(big_r));
        assert(split_lines(t) == seq![l] + split_lines(rest));
        assert(split_lines(t).map_values(|l: Seq<char>| rewritten_line(set, l)) =~= seq![r]
            + split_lines(rest).map_values(|l: Seq<char>| rewritten_line(set, l)));
    }
}

/// What becomes of one line.
#[derive(Debug)]
pub enum LineOutcome {
    Unchanged,
    Rewritten(String),
}

/// The rewritten form of the range `a..b` of `c`, when that range is a known
/// directive.
fn classify_range(set: &DirectiveSet, c: &Vec<char>, a: usize, b: usize) -> (r: Option<String>)
    requires
        set.wf(),
        a <= b <= c.len(),
    ensures
        r matches Some(s) ==> classify(set@, c@.subrange(a as int, b as int)) == Some(s@),
        r is None ==> classify(set@, c@.subrange(a as int, b as int)) is None,
{
    let ghost l = c@.subrange(a as int, b as int);
    let p = skip_ws(c, a, b);
    if !(b - p > 1 && c[p] == '/' && c[p + 1] == '/') {
        assert(!marker_at(l, (p - a) as int)) by {
            if marker_at(l, (p - a) as int) {
                assert(l[p - a] == c@[p as int]);
                assert(l[p - a + 1] == c@[p + 1]);
            }
        }
        return None;
    }
    assert(l[p - a] == c@[p as int] && l[p - a + 1] == c@[p + 1]);
    let sb = strip_breaks_of(c, a, b);
    if !set.contains_chars(&sb) {
        return None;
    }
    let mut r = string_of(c, a, p);
    r.push('/');
    r.push('/');
    r.push('@');
    let tail = string_of(c, p + 2, b);
    r.append(tail.as_str());
    proof {
        let q = (p - a) as int;
        assert(l.take(q) =~= c@.subrange(a as int, p as int));
        assert(l.skip(q + 2) =~= c@.subrange(p + 2, b as int));
        assert(r@ =~= l.take(q) + directive_marker() + l.skip(q + 2));
    }
    Some(r)
}

/// Decides whether `line` is a known directive and, if so, gives it rewritten.
pub fn classify_line(set: &DirectiveSet, line: &str) -> (r: LineOutcome)
    requires
        set.wf(),
    ensures
        r matches LineOutcome::Rewritten(s) ==> classify(set@, line@) == Some(s@),
        r is Unchanged ==> classify(set@, line@) is None,
{
    let c = chars_of(line);
    assert(c@.subrange(0, c@.len() as int) =~= c@);
    match classify_range(set, &c, 0, c.len()) {
        Some(s) => LineOutcome::Rewritten(s),
        None => LineOutcome::Unchanged,
    }
}

/// The line as it is written out: rewritten when it is a known directive,
/// as it is otherwise.
pub fn rewrite_line(set: &DirectiveSet, line: &str) -> (r: String)
    requires
        set.wf(),
    ensures
        r@ == rewritten_line(set@, line@),
{
    match classify_line(set, line) {
        LineOutcome::Rewritten(s) => s,
        LineOutcome::Unchanged => String::from_str(line),
    }
}

/// The whole text, each of its lines (terminators kept) rewritten.
pub fn migrate_text(set: &DirectiveSet, text: &str) -> (r: String)
    requires
        set.wf(),
    ensures
        r@ == rewrite_text(set@, text@),
{
    let c = chars_of(text);
    let n = c.len();
    let mut out = String::new();
    let mut i: usize = 0;
    assert(c@.skip(0) =~= c@);
    while i < n
        invariant
            set.wf(),
            n == c.len(),
            c@ == text@,
            i <= n,
            rewrite_text(set@, c@) == out@ + rewrite_text(set@, c@.skip(i as int)),
        decreases n - i,
    {
        let e = line_end(&c, i);
        proof {
            let rest = c@.skip(i as int);
            assert(c@.subrange(i as int, n as int) =~= rest);
            lemma_line_len_bounds(rest);
            assert(rest.take(line_len(rest) as int) =~= c@.subrange(i as int, e as int));
            assert(rest.skip(line_len(rest) as int) =~= c@.skip(e as int));
        }
        let ghost prev = out@;
        match classify_range(set, &c, i, e) {
            Some(s) => out.append(s.as_str()),
            None => {
                let s = string_of(&c, i, e);
                out.append(s.as_str());
            },
        }
        assert(out@ + rewrite_text(set@, c@.skip(e as int)) =~= prev + (rewritten_line(
            set@,
            c@.subrange(i as int, e as int),
        ) + rewrite_text(set@, c@.skip(e as int))));
        i = e;
    }
    assert(c@.skip(n as int) =~= Seq::<char>::empty());
    assert(out@ + Seq::<char>::empty() =~= out@);
    out
}

} // verus!
