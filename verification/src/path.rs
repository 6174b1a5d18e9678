//! Paths as sequences of component names.

use vstd::prelude::*;
use vstd::string::*;

verus! {

/// The names that a sequence of strings holds.
pub open spec fn names_of(components: Seq<String>) -> Seq<Seq<char>> {
    components.map_values(|c: String| c@)
}

/// A path, given by its components: the names of the directories that lead
/// to a node, outermost first, and the node's own name last. The path of a
/// node of the tree starts at the root of the tree, whose own path is empty.
#[derive(Debug)]
pub struct RelPath {
    pub components: Vec<String>,
}

impl View for RelPath {
    type V = Seq<Seq<char>>;

    open spec fn view(&self) -> Seq<Seq<char>> {
        names_of(self.components@)
    }
}

impl RelPath {
    /// The path of the root.
    pub fn root() -> (path: RelPath)
        ensures
            path@ == Seq::<Seq<char>>::empty(),
    {
        RelPath { components: Vec::new() }
    }

    /// The path with the given components, outermost first.
    pub fn from_components(components: Vec<String>) -> (path: RelPath)
        ensures
            path@ == names_of(components@),
    {
        RelPath { components }
    }

    /// How many levels below the root the path lies.
    pub fn depth(&self) -> (n: usize)
        ensures
            n == self@.len(),
    {
        self.components.len()
    }

    /// The first `n` components: the ancestor `depth() - n` levels up.
    pub fn prefix(&self, n: usize) -> (path: RelPath)
        requires
            n <= self@.len(),
        ensures
            path@ == self@.take(n as int),
    {
        let mut components: Vec<String> = Vec::new();
        let mut i: usize = 0;
        while i < n
            invariant
                i <= n <= self.components@.len(),
                names_of(components@) == self@.take(i as int),
            decreases n - i,
        {
            components.push(self.components[i].clone());
            assert(self@.take(i + 1) =~= self@.take(i as int).push(self@[i as int]));
            i += 1;
        }
        RelPath { components }
    }

    /// A copy of the path.
    pub fn duplicate(&self) -> (path: RelPath)
        ensures
            path@ == self@,
    {
        self.prefix(self.components.len())
    }

    /// The path of the entry `name` in the directory `self`.
    pub fn join(&self, name: &str) -> (path: RelPath)
        ensures
            path@ == self@.push(name@),
    {
        let mut path = self.duplicate();
        path.components.push(name.to_owned());
        path
    }

    /// The path that leads to `self` and from there on as `below` says.
    pub fn concat(&self, below: &RelPath) -> (path: RelPath)
        ensures
            path@ == self@ + below@,
    {
        let mut path = self.duplicate();
        let mut i: usize = 0;
        while i < below.components.len()
            invariant
                i <= below.components@.len(),
                path@ == self@ + below@.take(i as int),
            decreases below.components@.len() - i,
        {
            let ghost before = path@;
            path.components.push(below.components[i].clone());
            assert(path@ =~= before.push(below@[i as int]));
            assert(below@.take(i + 1) =~= below@.take(i as int).push(below@[i as int]));
            i += 1;
        }
        assert(below@.take(below@.len() as int) =~= below@);
        path
    }

    /// Whether two paths have the same components.
    pub fn same_as(&self, other: &RelPath) -> (same: bool)
        ensures
            same == (self@ == other@),
    {
        if self.components.len() != other.components.len() {
            return false;
        }
        let mut i: usize = 0;
        while i < self.components.len()
            invariant
                i <= self.components@.len(),
                self.components@.len() == other.components@.len(),
                self@.take(i as int) == other@.take(i as int),
            decreases self.components@.len() - i,
        {
            if self.components[i] != other.components[i] {
                assert(self@[i as int] != other@[i as int]);
                return false;
            }
            i += 1;
        }
        assert(self@.take(self@.len() as int) =~= self@);
        assert(other@.take(other@.len() as int) =~= other@);
        true
    }
}

} // verus!
