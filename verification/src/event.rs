//! Raw filesystem notifications, as the debounce engine sees them.
//!
//! The native change-notification backend is an external collaborator; its
//! platform-specific event enumeration is reduced at the boundary to the
//! closed variant set below. A candidate path arrives together with the
//! canonical form of its parent directory, resolved at the boundary, so that
//! the filter can compare parents reliably.

use vstd::prelude::*;

verus! {

/// Kind of a raw filesystem change notification.
#[derive(Clone, Copy, PartialEq, Eq, Structural, Debug)]
pub enum RawEventKind {
    /// A new entry was created.
    Create,
    /// An entry was renamed or moved; the affected paths may include both
    /// the old and the new name.
    RenameName,
    /// Anything else (modification, deletion, metadata change, ...).
    Other,
}

impl RawEventKind {
    /// A raw event can introduce a new entry only if it is a creation or a
    /// rename; everything else is ignored outright.
    pub open spec fn spec_is_interesting(self) -> bool {
        self == RawEventKind::Create || self == RawEventKind::RenameName
    }

    /// Executable form of `spec_is_interesting`.
    pub fn is_interesting(&self) -> (r: bool)
        ensures
            r == self.spec_is_interesting(),
    {
        match self {
            RawEventKind::Create => true,
            RawEventKind::RenameName => true,
            RawEventKind::Other => false,
        }
    }
}

/// One path affected by a raw event, paired with the canonical form of its
/// parent directory.
///
/// `canonical_parent` is `None` when the parent could not be canonicalized
/// (for example, the entry vanished before the boundary could resolve it);
/// such candidates are silently dropped by the filter.
pub struct Candidate {
    /// The affected path, as reported by the native backend.
    pub path: String,
    /// Canonical absolute path of the parent directory, if it resolved.
    pub canonical_parent: Option<String>,
}

impl Candidate {
    /// A candidate qualifies exactly when its parent canonicalized to the
    /// watch root: entries created deeper in the tree, or whose parent
    /// vanished, never qualify.
    pub open spec fn qualifies(self, root: Seq<char>) -> bool {
        match self.canonical_parent {
            Some(p) => p@ == root,
            None => false,
        }
    }
}

/// The views of a sequence of strings, in the same order.
pub open spec fn views_of_strings(v: Seq<String>) -> Seq<Seq<char>> {
    v.map_values(|s: String| s@)
}

/// The subsequence of candidate paths whose parent canonicalized to `root`,
/// in order of arrival.
pub open spec fn qualifying_paths(cands: Seq<Candidate>, root: Seq<char>) -> Seq<Seq<char>>
    decreases cands.len(),
{
    if cands.len() == 0 {
        Seq::empty()
    } else {
        let rest = qualifying_paths(cands.drop_last(), root);
        if cands.last().qualifies(root) {
            rest.push(cands.last().path@)
        } else {
            rest
        }
    }
}

/// Every qualifying path comes from a qualifying candidate.
pub proof fn lemma_qualifying_paths_from_candidates(
    cands: Seq<Candidate>,
    root: Seq<char>,
    k: int,
)
    requires
        0 <= k < qualifying_paths(cands, root).len(),
    ensures
        exists|i: int|
            0 <= i < cands.len() && #[trigger] cands[i].qualifies(root) && cands[i].path@
                == qualifying_paths(cands, root)[k],
    decreases cands.len(),
{
    let q = qualifying_paths(cands, root);
    if cands.len() > 0 {
        let rest = qualifying_paths(cands.drop_last(), root);
        if cands.last().qualifies(root) && k == q.len() - 1 {
            assert(cands[cands.len() - 1].qualifies(root));
        } else {
            lemma_qualifying_paths_from_candidates(cands.drop_last(), root, k);
            let i = choose|i: int|
                0 <= i < cands.drop_last().len() && #[trigger] cands.drop_last()[i].qualifies(root)
                    && cands.drop_last()[i].path@ == rest[k];
            assert(cands[i].qualifies(root));
        }
    }
}

/// A candidate set in which no candidate for `p` qualifies contributes no
/// occurrence of `p`.
pub proof fn lemma_qualifying_paths_absent(cands: Seq<Candidate>, root: Seq<char>, p: Seq<char>)
    requires
        forall|i: int|
            0 <= i < cands.len() && (#[trigger] cands[i].path@) == p ==> !cands[i].qualifies(root),
    ensures
        !qualifying_paths(cands, root).contains(p),
    decreases cands.len(),
{
    if cands.len() > 0 {
        assert forall|i: int|
            0 <= i < cands.drop_last().len() && (#[trigger] cands.drop_last()[i].path@)
                == p implies !cands.drop_last()[i].qualifies(root) by {
            assert(cands.drop_last()[i] == cands[i]);
            assert(cands[i].path@ == p);
            assert(!cands[i].qualifies(root));
        }
        lemma_qualifying_paths_absent(cands.drop_last(), root, p);
        let q = qualifying_paths(cands, root);
        if cands.last().qualifies(root) {
            assert(cands[cands.len() - 1].qualifies(root));
            assert(cands.last().path@ != p);
            assert(forall|j: int| 0 <= j < q.len() ==> q[j] != p) by {
                let rest = qualifying_paths(cands.drop_last(), root);
                assert(forall|j: int| 0 <= j < rest.len() ==> rest[j] != p);
            }
        }
    }
}

/// Keeps exactly the candidate paths whose parent canonicalized to `root`,
/// in their order of arrival.
pub fn filter_candidates(root: &String, candidates: &Vec<Candidate>) -> (r: Vec<String>)
    ensures
        views_of_strings(r@) == qualifying_paths(candidates@, root@),
{
    let mut r: Vec<String> = Vec::new();
    let mut i: usize = 0;
    while i < candidates.len()
        invariant
            0 <= i <= candidates@.len(),
            views_of_strings(r@) == qualifying_paths(candidates@.take(i as int), root@),
        decreases candidates@.len() - i,
    {
        let c = &candidates[i];
        let keep = match &c.canonical_parent {
            Some(p) => p.eq(root),
            None => false,
        };
        proof {
            assert(candidates@.take(i + 1).drop_last() == candidates@.take(i as int));
            assert(candidates@.take(i + 1).last() == candidates@[i as int]);
            assert(keep == candidates@[i as int].qualifies(root@));
        }
        if keep {
            r.push(c.path.clone());
            assert(views_of_strings(r@) =~= qualifying_paths(candidates@.take(i + 1), root@));
        } else {
            assert(views_of_strings(r@) =~= qualifying_paths(candidates@.take(i + 1), root@));
        }
        i = i + 1;
    }
    proof {
        assert(candidates@.take(candidates@.len() as int) == candidates@);
    }
    r
}

} // verus!
