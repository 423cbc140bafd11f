//! Sets of chunks, held in a collection of the hashbrown crate.

use vstd::prelude::*;

verus! {

/// A set of indices of chunks, held in a hash set of the hashbrown crate.
#[verifier::external_body]
pub struct IndexSet {
    set: hashbrown::HashSet<usize>,
}

/// The indices in the set.
pub uninterp spec fn index_set_contents(set: IndexSet) -> Set<usize>;

impl IndexSet {
    /// Creates an empty set.
    ///
    /// This is `HashSet::new` of hashbrown, which creates a set without elements.
    #[verifier::external_body]
    pub(super) fn new() -> (set: IndexSet)
        ensures
            index_set_contents(set) == Set::<usize>::empty(),
    {
        IndexSet { set: hashbrown::HashSet::new() }
    }

    /// Adds an index to the set.
    ///
    /// This is `HashSet::insert` of hashbrown, which adds the element and says whether it
    /// was not there before.
    #[verifier::external_body]
    pub(super) fn insert(&mut self, index: usize) -> (added: bool)
        ensures
            index_set_contents(*final(self)) == index_set_contents(*old(self)).insert(index),
            added == !index_set_contents(*old(self)).contains(index),
    {
        self.set.insert(index)
    }

    /// Whether an index is in the set.
    ///
    /// This is `HashSet::contains` of hashbrown, which says whether the element is there.
    #[verifier::external_body]
    pub(super) fn contains(&self, index: usize) -> (found: bool)
        ensures
            found == index_set_contents(*self).contains(index),
    {
        self.set.contains(&index)
    }
}

} // verus!
