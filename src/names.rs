//! Bare directive names: a directive line without its marker, revision
//! bracket, value and trailing text.

use vstd::prelude::*;
use crate::directive_set::DirectiveSet;
use crate::text::{
    chars_of, find_marker, first_marker, lemma_trim_within, skip_ws, string_of, trim, trim_range,
    trim_start, ws_len,
};

verus! {

/// Why a directive line has no name.
#[derive(Clone, Copy, Debug, PartialEq, Eq, Structural)]
pub enum MalformedKind {
    /// The line holds no `//`.
    NoMarker,
    /// Something other than whitespace precedes the first `//`.
    CodeBeforeMarker,
    /// A revision bracket `[` is never closed by `]`.
    UnclosedRevision,
}

/// A directive line whose name cannot be extracted.
#[derive(Debug)]
pub struct MalformedDirective {
    pub kind: MalformedKind,
    pub directive: String,
}

/// The first index at or after `i` that holds `x` or `y`.
pub open spec fn find_from(s: Seq<char>, x: char, y: char, i: int) -> Option<int>
    decreases s.len() - i,
{
    if i < 0 || i >= s.len() {
        None
    } else if s[i] == x || s[i] == y {
        Some(i)
    } else {
        find_from(s, x, y, i + 1)
    }
}

/// What follows a leading revision bracket, trimmed; `None` when the bracket
/// is not closed.
pub open spec fn after_revision(r: Seq<char>) -> Option<Seq<char>> {
    if r.len() > 0 && r[0] == '[' {
        match find_from(r, ']', ']', 0) {
            Some(q) => Some(trim_start(r.skip(q + 1))),
            None => None,
        }
    } else {
        Some(r)
    }
}

/// `r` without a stray leading colon (`//[rev]: name`).
pub open spec fn skip_stray_colon(r: Seq<char>) -> Seq<char> {
    if r.len() > 0 && r[0] == ':' {
        trim_start(r.drop_first())
    } else {
        r
    }
}

/// The name: the text up to the first `:` or space, trimmed.
pub open spec fn leading_name(r: Seq<char>) -> Seq<char> {
    match find_from(r, ':', ' ', 0) {
        Some(i) => trim(r.take(i)),
        None => trim(r),
    }
}

/// The bare name of the directive line `d`.
pub open spec fn directive_name(d: Seq<char>) -> Result<Seq<char>, MalformedKind> {
    match first_marker(d) {
        None => Err(MalformedKind::NoMarker),
        Some(p) => if trim(d.take(p)).len() > 0 {
            Err(MalformedKind::CodeBeforeMarker)
        } else {
            match after_revision(trim_start(d.skip(p + 2))) {
                None => Err(MalformedKind::UnclosedRevision),
                Some(r) => Ok(leading_name(skip_stray_colon(r))),
            }
        },
    }
}

/// What `find_from` returns holds `x` or `y`, and nothing before it does.
pub proof fn lemma_find_from(s: Seq<char>, x: char, y: char, i: int)
    requires
        0 <= i,
    ensures
        find_from(s, x, y, i) matches Some(q) ==> i <= q < s.len() && forall|j: int|
            i <= j < q ==> #[trigger] s[j] != x && s[j] != y,
        find_from(s, x, y, i) is None ==> forall|j: int|
            i <= j < s.len() ==> #[trigger] s[j] != x && s[j] != y,
    decreases s.len() - i,
{
    if i < s.len() && s[i] != x && s[i] != y {
        lemma_find_from(s, x, y, i + 1);
    }
}

/// An extracted name never holds a space or a colon, so no name is ambiguous.
pub proof fn lemma_name_has_no_separator(d: Seq<char>)
    requires
        directive_name(d) is Ok,
    ensures
        forall|j: int|
            0 <= j < directive_name(d)->Ok_0.len() ==> #[trigger] directive_name(d)->Ok_0[j]
                != ' ' && directive_name(d)->Ok_0[j] != ':',
{
    let p = first_marker(d)->Some_0;
    let r = skip_stray_colon(after_revision(trim_start(d.skip(p + 2)))->Some_0);
    let n = directive_name(d)->Ok_0;
    assert(n == leading_name(r));
    lemma_find_from(r, ':', ' ', 0);
    match find_from(r, ':', ' ', 0) {
        Some(i) => {
            let w = r.take(i);
            lemma_trim_within(w);
            assert forall|j: int| 0 <= j < n.len() implies #[trigger] n[j] != ' ' && n[j] != ':' by {
                assert(n[j] == w[ws_len(w) + j]);
                assert(w[ws_len(w) + j] == r[ws_len(w) + j]);
            }
        },
        None => {
            lemma_trim_within(r);
            assert forall|j: int| 0 <= j < n.len() implies #[trigger] n[j] != ' ' && n[j] != ':' by {
                assert(n[j] == r[ws_len(r) + j]);
            }
        },
    }
}

/// First index of `x` or `y` in the range `a..b` of `s`.
fn find_either(s: &Vec<char>, a: usize, b: usize, x: char, y: char) -> (r: Option<usize>)
    requires
        a <= b <= s.len(),
    ensures
        r matches Some(q) ==> a <= q < b && find_from(s@.subrange(a as int, b as int), x, y, 0)
            == Some(q - a),
        r is None ==> find_from(s@.subrange(a as int, b as int), x, y, 0) is None,
{
    let ghost t = s@.subrange(a as int, b as int);
    let mut j = a;
    while j < b
        invariant
            a <= j <= b <= s.len(),
            t == s@.subrange(a as int, b as int),
            find_from(t, x, y, 0) == find_from(t, x, y, j - a),
        decreases b - j,
    {
        assert(t[j - a] == s@[j as int]);
        if s[j] == x || s[j] == y {
            return Some(j);
        }
        j += 1;
    }
    None
}

/// The bare name of the directive line `d`.
pub fn extract_name(d: &str) -> (r: Result<String, MalformedKind>)
    ensures
        r matches Ok(s) ==> directive_name(d@) == Ok::<Seq<char>, MalformedKind>(s@),
        r matches Err(k) ==> directive_name(d@) == Err::<Seq<char>, MalformedKind>(k),
{
    let c = chars_of(d);
    let n = c.len();
    let p = match find_marker(&c) {
        Some(p) => p,
        None => return Err(MalformedKind::NoMarker),
    };
    let (x, y) = trim_range(&c, 0, p);
    assert(c@.subrange(0, p as int) =~= d@.take(p as int));
    if x < y {
        return Err(MalformedKind::CodeBeforeMarker);
    }
    let mut a = skip_ws(&c, p + 2, n);
    assert(c@.subrange(p + 2, n as int) =~= d@.skip(p + 2));
    assert(trim_start(d@.skip(p + 2)) =~= c@.subrange(a as int, n as int));
    let ghost r0 = c@.subrange(a as int, n as int);
    if a < n && c[a] == '[' {
        assert(r0[0] == '[');
        match find_either(&c, a, n, ']', ']') {
            None => return Err(MalformedKind::UnclosedRevision),
            Some(q) => {
                let a2 = skip_ws(&c, q + 1, n);
                assert(c@.subrange(q + 1, n as int) =~= r0.skip(q + 1 - a));
                assert(trim_start(r0.skip(q + 1 - a)) =~= c@.subrange(a2 as int, n as int));
                a = a2;
            },
        }
    } else {
        assert(a < n ==> r0[0] == c@[a as int]);
    }
    let ghost r1 = c@.subrange(a as int, n as int);
    assert(after_revision(r0) == Some(r1));
    if a < n && c[a] == ':' {
        assert(r1[0] == ':');
        let a2 = skip_ws(&c, a + 1, n);
        assert(c@.subrange(a + 1, n as int) =~= r1.drop_first());
        assert(trim_start(r1.drop_first()) =~= c@.subrange(a2 as int, n as int));
        a = a2;
    } else {
        assert(a < n ==> r1[0] == c@[a as int]);
    }
    let ghost r2 = c@.subrange(a as int, n as int);
    assert(skip_stray_colon(r1) == r2);
    let (u, v) = match find_either(&c, a, n, ':', ' ') {
        Some(q) => {
            assert(c@.subrange(a as int, q as int) =~= r2.take(q - a));
            trim_range(&c, a, q)
        },
        None => trim_range(&c, a, n),
    };
    Ok(string_of(&c, u, v))
}

/// `x` is held by one of `names`.
pub open spec fn name_listed(names: Seq<String>, x: Seq<char>) -> bool {
    exists|j: int| 0 <= j < names.len() && #[trigger] names[j]@ == x
}

/// `x` is the name of one of the first `n` members of `set`.
pub open spec fn name_of_some(set: Seq<Seq<char>>, n: int, x: Seq<char>) -> bool {
    exists|k: int|
        0 <= k < n && #[trigger] directive_name(set[k]) == Ok::<Seq<char>, MalformedKind>(x)
}

/// The distinct names of the members of `set`, in order of first appearance;
/// the first member, in the set's order, that has none is reported instead.
pub fn extract_directive_names(set: &DirectiveSet) -> (r: Result<Vec<String>, MalformedDirective>)
    requires
        set.wf(),
    ensures
        r is Ok <==> forall|i: int| 0 <= i < set@.len() ==> #[trigger] directive_name(set@[i]) is Ok,
        r matches Ok(names) ==> {
            &&& forall|a: int, b: int|
                0 <= a < b < names.len() ==> #[trigger] names[a]@ != #[trigger] names[b]@
            &&& forall|x: Seq<char>|
                #![trigger name_listed(names@, x)]
                #![trigger name_of_some(set@, set@.len() as int, x)]
                name_listed(names@, x) <==> name_of_some(set@, set@.len() as int, x)
        },
        r matches Err(e) ==> exists|i: int|
            0 <= i < set@.len() && e.directive@ == set@[i] && #[trigger] directive_name(set@[i])
                == Err::<Seq<char>, MalformedKind>(e.kind),
{
    let mut names: Vec<String> = Vec::new();
    let mut i: usize = 0;
    while i < set.len()
        invariant
            set.wf(),
            i <= set@.len(),
            forall|k: int| 0 <= k < i ==> #[trigger] directive_name(set@[k]) is Ok,
            forall|a: int, b: int|
                0 <= a < b < names.len() ==> #[trigger] names[a]@ != #[trigger] names[b]@,
            forall|x: Seq<char>|
                #![trigger name_listed(names@, x)]
                #![trigger name_of_some(set@, i as int, x)]
                name_listed(names@, x) <==> name_of_some(set@, i as int, x),
        decreases set@.len() - i,
    {
        let d = set.get(i);
        match extract_name(d.as_str()) {
            Err(kind) => {
                return Err(MalformedDirective { kind, directive: d.clone() });
            },
            Ok(name) => {
                let mut found = false;
                let mut j: usize = 0;
                while j < names.len()
                    invariant
                        j <= names.len(),
                        !found ==> forall|m: int| 0 <= m < j ==> names[m]@ != name@,
                        found ==> exists|m: int| 0 <= m < names.len() && #[trigger] names[m]@ == name@,
                    decreases names.len() - j,
                {
                    if names[j] == name {
                        found = true;
                    }
                    j += 1;
                }
                let ghost prev = names@;
                if !found {
                    names.push(name);
                }
                proof {
                    let ii = i as int;
                    assert forall|x: Seq<char>|
                        #![trigger name_listed(names@, x)]
                        #![trigger name_of_some(set@, ii + 1, x)]
                        name_listed(names@, x) <==> name_of_some(set@, ii + 1, x) by {
                        if exists|j: int| 0 <= j < names.len() && #[trigger] names[j]@ == x {
                            let j = choose|j: int| 0 <= j < names.len() && #[trigger] names[j]@ == x;
                            if j < prev.len() {
                                assert(prev[j]@ == x);
                                assert(name_listed(prev, x));
                                assert(name_of_some(set@, ii, x));
                            } else {
                                assert(directive_name(set@[ii]) == Ok::<Seq<char>, MalformedKind>(x));
                            }
                        }
                        if exists|k: int| 0 <= k < ii + 1 && #[trigger] directive_name(set@[k]) == Ok::<
                            Seq<char>,
                            MalformedKind,
                        >(x) {
                            let k = choose|k: int| 0 <= k < ii + 1 && #[trigger] directive_name(set@[k]) == Ok::<
                                Seq<char>,
                                MalformedKind,
                            >(x);
                            if k < ii {
                                assert(name_of_some(set@, ii, x));
                                assert(name_listed(prev, x));
                                let j = choose|j: int| 0 <= j < prev.len() && #[trigger] prev[j]@ == x;
                                assert(names[j]@ == x);
                            } else if found {
                                let m = choose|m: int| 0 <= m < prev.len() && #[trigger] prev[m]@ == name@;
                                assert(names[m]@ == x);
                            } else {
                                assert(names[prev.len() as int]@ == x);
                            }
                        }
                    }
                    assert forall|a: int, b: int|
                        0 <= a < b < names.len() implies #[trigger] names[a]@ != #[trigger] names[b]@ by {
                        if b < prev.len() {
                            assert(names[a] == prev[a] && names[b] == prev[b]);
                        } else {
                            assert(names[a] == prev[a]);
                        }
                    }
                }
            },
        }
        i += 1;
    }
    Ok(names)
}

} // verus!
