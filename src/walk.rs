//! Which files of the corpus are migrated: the decision, apart from the
//! directory traversal itself.

use vstd::prelude::*;

verus! {

/// `prefix` is a leading run of the path components `path`.
pub open spec fn components_prefix(prefix: Seq<String>, path: Seq<String>) -> bool {
    prefix.len() <= path.len() && forall|i: int| 0 <= i < prefix.len() ==> #[trigger] prefix[i]@
        == path[i]@
}

/// Inclusion policy for candidate files: a file extension from `extensions`,
/// and no location under one of the `excluded` subtrees. Paths are given as
/// components relative to the corpus root.
pub struct CandidatePolicy {
    pub extensions: Vec<String>,
    pub excluded: Vec<Vec<String>>,
}

impl CandidatePolicy {
    /// Test sources (`rs`) and their fixed variants (`fixed`), with the
    /// subtrees in `excluded` left out.
    pub fn test_sources(excluded: Vec<Vec<String>>) -> (r: CandidatePolicy)
        ensures
            r.extensions@.len() == 2,
            r.extensions@[0]@ == "rs"@,
            r.extensions@[1]@ == "fixed"@,
            r.excluded@ == excluded@,
    {
        let mut extensions: Vec<String> = Vec::new();
        extensions.push(String::from_str("rs"));
        extensions.push(String::from_str("fixed"));
        CandidatePolicy { extensions, excluded }
    }

    pub open spec fn accepts(&self, is_dir: bool, extension: Option<&str>, rel: Seq<String>) -> bool {
        &&& !is_dir
        &&& extension matches Some(e) && exists|k: int|
            0 <= k < self.extensions.len() && #[trigger] self.extensions[k]@ == e@
        &&& forall|k: int|
            0 <= k < self.excluded.len() ==> !components_prefix(#[trigger] self.excluded[k]@, rel)
    }

    /// Whether the entry at the relative path `rel`, a directory or not, with
    /// the given file extension, is to be migrated.
    pub fn is_candidate(&self, is_dir: bool, extension: Option<&str>, rel: &Vec<String>) -> (r: bool)
        ensures
            r == self.accepts(is_dir, extension, rel@),
    {
        if is_dir {
            return false;
        }
        let e = match extension {
            Some(e) => e,
            None => return false,
        };
        let x = String::from_str(e);
        let mut found = false;
        let mut k: usize = 0;
        while k < self.extensions.len()
            invariant
                x@ == e@,
                k <= self.extensions.len(),
                found == exists|m: int| 0 <= m < k && #[trigger] self.extensions[m]@ == e@,
            decreases self.extensions.len() - k,
        {
            if self.extensions[k] == x {
                found = true;
            }
            k += 1;
        }
        if !found {
            return false;
        }
        let mut k: usize = 0;
        while k < self.excluded.len()
            invariant
                k <= self.excluded.len(),
                forall|m: int| 0 <= m < k ==> !components_prefix(#[trigger] self.excluded[m]@, rel@),
            decreases self.excluded.len() - k,
        {
            if is_prefix(&self.excluded[k], rel) {
                return false;
            }
            k += 1;
        }
        true
    }
}

/// Whether `prefix` is a leading run of `path`.
fn is_prefix(prefix: &Vec<String>, path: &Vec<String>) -> (r: bool)
    ensures
        r == components_prefix(prefix@, path@),
{
    if prefix.len() > path.len() {
        return false;
    }
    let mut i: usize = 0;
    while i < prefix.len()
        invariant
            prefix.len() <= path.len(),
            i <= prefix.len(),
            forall|m: int| 0 <= m < i ==> #[trigger] prefix@[m]@ == path@[m]@,
        decreases prefix.len() - i,
    {
        if prefix[i] != path[i] {
            return false;
        }
        i += 1;
    }
    true
}

} // verus!
