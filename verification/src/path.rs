//! Paths as sequences of components.

use vstd::prelude::*;

verus! {

/// A path, held as its components from the root down.
///
/// Two paths are the same path exactly if they have the same components in
/// the same order; a path lies under another if that other one is a prefix
/// of it.
#[derive(Debug)]
pub struct TreePath {
    pub components: Vec<String>,
}

impl View for TreePath {
    type V = Seq<Seq<char>>;

    open spec fn view(&self) -> Seq<Seq<char>> {
        Seq::new(self.components@.len(), |i: int| self.components@[i]@)
    }
}

/// Whether `path` is `ancestor` or lies under it: `ancestor` is a prefix of
/// `path`.
pub open spec fn is_within(path: Seq<Seq<char>>, ancestor: Seq<Seq<char>>) -> bool {
    ancestor.len() <= path.len() && path.take(ancestor.len() as int) == ancestor
}

/// Whether `path` lies under `ancestor` and is not `ancestor` itself.
pub open spec fn is_below(path: Seq<Seq<char>>, ancestor: Seq<Seq<char>>) -> bool {
    ancestor.len() < path.len() && path.take(ancestor.len() as int) == ancestor
}

impl TreePath {
    /// The path without components.
    pub fn new() -> (path: TreePath)
        ensures
            path@ == Seq::<Seq<char>>::empty(),
    {
        let path = TreePath { components: Vec::new() };
        assert(path@ =~= Seq::<Seq<char>>::empty());
        path
    }

    /// The path made of the given components.
    pub fn from_components(components: Vec<String>) -> (path: TreePath)
        ensures
            path.components == components,
    {
        TreePath { components }
    }

    /// The number of components.
    pub fn depth(&self) -> (n: usize)
        ensures
            n == self@.len(),
    {
        self.components.len()
    }

    /// The path of the entry called `name` in the directory `self`.
    pub fn child(&self, name: &String) -> (path: TreePath)
        ensures
            path@ == self@.push(name@),
    {
        let mut path = self.clone();
        path.components.push(name.clone());
        assert(path@ =~= self@.push(name@));
        path
    }
}

impl PartialEq for TreePath {
    fn eq(&self, other: &TreePath) -> (same: bool) {
        if self.components.len() != other.components.len() {
            assert(self@.len() != other@.len());
            return false;
        }
        let mut i: usize = 0;
        while i < self.components.len()
            invariant
                i <= self.components.len(),
                self.components.len() == other.components.len(),
                forall|k: int| 0 <= k < i ==> self@[k] == other@[k],
            decreases self.components.len() - i,
        {
            if self.components[i] != other.components[i] {
                assert(self@[i as int] != other@[i as int]);
                return false;
            }
            i += 1;
        }
        assert(self@ =~= other@);
        true
    }
}

impl Eq for TreePath {}

impl vstd::std_specs::cmp::PartialEqSpecImpl for TreePath {
    open spec fn obeys_eq_spec() -> bool {
        true
    }

    open spec fn eq_spec(&self, other: &TreePath) -> bool {
        self@ == other@
    }
}

impl Clone for TreePath {
    fn clone(&self) -> (path: TreePath)
        ensures
            path@ == self@,
    {
        let mut components: Vec<String> = Vec::new();
        let mut i: usize = 0;
        while i < self.components.len()
            invariant
                i <= self.components.len(),
                components@.len() == i,
                forall|k: int| 0 <= k < i ==> components@[k]@ == self.components@[k]@,
            decreases self.components.len() - i,
        {
            components.push(self.components[i].clone());
            i += 1;
        }
        let path = TreePath { components };
        assert(path@ =~= self@);
        path
    }
}

} // verus!
