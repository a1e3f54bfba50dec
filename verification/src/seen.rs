//! The ids that a search has come upon.

use ahash::RandomState;
use hashbrown::HashSet;
use vstd::prelude::*;

verus! {

/// A `hashbrown::HashSet` of node ids, hashed by `ahash` under fixed seeds.
#[derive(Debug)]
#[verifier::external_body]
pub struct SeenSet {
    ids: HashSet<usize, RandomState>,
}

/// The ids that a set holds.
pub uninterp spec fn seen_ids(set: SeenSet) -> Set<usize>;

impl SeenSet {
    /// `hashbrown::HashSet::with_hasher`, given `ahash::RandomState::with_seeds`
    /// with four zeros: the set it makes is empty.
    #[verifier::external_body]
    pub(crate) fn empty() -> (set: Self)
        ensures
            seen_ids(set) == Set::<usize>::empty(),
    {
        SeenSet { ids: HashSet::with_hasher(RandomState::with_seeds(0, 0, 0, 0)) }
    }

    /// `hashbrown::HashSet::insert`: adds the id, and tells whether the set did not
    /// hold it before.
    #[verifier::external_body]
    pub(crate) fn insert(&mut self, id: usize) -> (fresh: bool)
        ensures
            fresh == !seen_ids(*old(self)).contains(id),
            seen_ids(*final(self)) == seen_ids(*old(self)).insert(id),
    {
        self.ids.insert(id)
    }

    /// `hashbrown::HashSet::clear`: removes every id.
    #[verifier::external_body]
    pub(crate) fn clear(&mut self)
        ensures
            seen_ids(*final(self)) == Set::<usize>::empty(),
    {
        self.ids.clear()
    }
}

impl Clone for SeenSet {
    /// `hashbrown::HashSet::clone`: the copy holds the same ids.
    #[verifier::external_body]
    fn clone(&self) -> (copy: Self)
        ensures
            seen_ids(copy) == seen_ids(*self),
    {
        SeenSet { ids: self.ids.clone() }
    }
}

} // verus!
