//! The set of particle identifiers filed under one cell.
//!
//! The set itself is `bevy::utils::HashSet`, which this crate does not
//! verify. What the rest of the crate knows of it is stated here, in the
//! contracts of the functions that call it.

use vstd::prelude::*;
use crate::chunk::CHUNK_CELLS;

verus! {

/// A hash set of particle identifiers. An identifier is the 64-bit form of
/// an entity.
#[verifier::external_body]
pub struct EntitySet {
    inner: bevy::utils::HashSet<u64>,
}

/// The identifiers that a set holds.
pub uninterp spec fn members(set: EntitySet) -> Set<u64>;

impl View for EntitySet {
    type V = Set<u64>;

    open spec fn view(&self) -> Set<u64> {
        members(*self)
    }
}

impl EntitySet {
    /// Calls `HashSet::new`, which creates an empty set.
    #[verifier::external_body]
    pub(crate) fn empty() -> (set: Self)
        ensures
            members(set) == Set::<u64>::empty(),
    {
        EntitySet { inner: bevy::utils::HashSet::new() }
    }

    /// Calls `HashSet::insert`, which adds the value to the set and returns
    /// whether it was absent before.
    #[verifier::external_body]
    pub(crate) fn insert(&mut self, id: u64) -> (fresh: bool)
        ensures
            members(*final(self)) == members(*old(self)).insert(id),
            fresh == !members(*old(self)).contains(id),
    {
        self.inner.insert(id)
    }

    /// Calls `HashSet::remove`, which takes the value out of the set and
    /// returns whether it was present.
    #[verifier::external_body]
    pub(crate) fn remove(&mut self, id: u64) -> (present: bool)
        ensures
            members(*final(self)) == members(*old(self)).remove(id),
            present == members(*old(self)).contains(id),
    {
        self.inner.remove(&id)
    }

    /// Calls `HashSet::contains`, which tells whether the set holds the
    /// value.
    #[verifier::external_body]
    pub(crate) fn contains(&self, id: u64) -> (present: bool)
        ensures
            present == members(*self).contains(id),
    {
        self.inner.contains(&id)
    }

    /// Calls `HashSet::iter`, which visits every element once, in an order
    /// that is not specified, and collects what it yields.
    #[verifier::external_body]
    pub(crate) fn ids(&self) -> (ids: Vec<u64>)
        ensures
            ids@.no_duplicates(),
            ids@.to_set() == members(*self),
    {
        self.inner.iter().copied().collect()
    }

    /// An empty set.
    pub fn new() -> (set: Self)
        ensures
            set@ == Set::<u64>::empty(),
    {
        EntitySet::empty()
    }
}

/// Calls `std::array::from_fn`, which builds an array from the results of
/// calling the closure once per index; here every element is a new empty set.
#[verifier::external_body]
pub(crate) fn empty_cells() -> (cells: [EntitySet; CHUNK_CELLS])
    ensures
        forall|i: int| 0 <= i < CHUNK_CELLS ==> members(#[trigger] cells@[i]) == Set::<u64>::empty(),
{
    std::array::from_fn(|_| EntitySet::new())
}

} // verus!
