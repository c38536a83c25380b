//! The source directories that a comparison does not descend into.

use vstd::prelude::*;
use crate::path::TreePath;

verus! {

/// A set of source-side directory paths to leave out of a comparison.
///
/// Membership is by exact equality of paths: a path is excluded only if the
/// set holds a path with the same components.
pub struct ExclusionSet {
    paths: Vec<TreePath>,
}

impl View for ExclusionSet {
    type V = Set<Seq<Seq<char>>>;

    closed spec fn view(&self) -> Set<Seq<Seq<char>>> {
        Set::new(|p: Seq<Seq<char>>| exists|i: int| 0 <= i < self.paths@.len() && self.paths@[i]@ == p)
    }
}

impl ExclusionSet {
    /// The set that excludes nothing.
    pub fn new() -> (set: ExclusionSet)
        ensures
            set@ == Set::<Seq<Seq<char>>>::empty(),
    {
        let set = ExclusionSet { paths: Vec::new() };
        assert(set@ =~= Set::<Seq<Seq<char>>>::empty());
        set
    }

    /// Adds `path` to the set.
    pub fn insert(&mut self, path: TreePath)
        ensures
            final(self)@ == old(self)@.insert(path@),
    {
        let ghost before = self.paths@;
        self.paths.push(path);
        assert forall|p: Seq<Seq<char>>| self@.contains(p) == old(self)@.insert(path@).contains(p) by {
            if self@.contains(p) {
                let i = choose|i: int| 0 <= i < self.paths@.len() && self.paths@[i]@ == p;
                if i < before.len() {
                    assert(before[i]@ == p);
                }
            }
            if old(self)@.contains(p) {
                let i = choose|i: int| 0 <= i < before.len() && before[i]@ == p;
                assert(self.paths@[i]@ == p);
            }
            if p == path@ {
                assert(self.paths@[before.len() as int]@ == p);
            }
        }
        assert(self@ =~= old(self)@.insert(path@));
    }

    /// Whether the set holds `path`.
    pub fn contains(&self, path: &TreePath) -> (found: bool)
        ensures
            found == self@.contains(path@),
    {
        let mut i: usize = 0;
        while i < self.paths.len()
            invariant
                i <= self.paths.len(),
                forall|k: int| 0 <= k < i ==> self.paths@[k]@ != path@,
            decreases self.paths.len() - i,
        {
            if self.paths[i] == *path {
                return true;
            }
            i += 1;
        }
        false
    }
}

} // verus!
