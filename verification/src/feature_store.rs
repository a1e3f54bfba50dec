//! Pluggable storage for the feature vectors an index is built over.

use vstd::prelude::*;

verus! {

/// Backing storage for an index's feature vectors.
///
/// The default is [`Vec<T>`], which keeps every feature on the heap. Another
/// implementation lets the features live somewhere else (a memory mapping, an
/// arena, any region the caller manages) while the graph stays in memory.
///
/// # Contract
///
/// A store is a growing sequence: a feature, once pushed, keeps its index and its
/// value. A reference that [`get_feature`](FeatureStore::get_feature) handed out
/// stays valid, unmoved and unmutated, whatever is read later. Neighbor selection
/// relies on that: it holds the target's feature, the candidate's and a kept
/// neighbor's at the same time, and a store that decoded all three into one
/// scratch buffer would make every comparison degenerate to the distance between
/// a feature and itself.
///
/// The methods are not called `get`, `push` and `len` so that they do not shadow
/// those of [`Vec`] where the trait is in scope.
pub trait FeatureStore<T> {
    /// The features stored, in the order in which they were pushed.
    ///
    /// This is ghost code and is never run. A store written in verified code says
    /// here what it holds; one written outside of it leaves the method out.
    closed spec fn features(&self) -> Seq<T> {
        arbitrary()
    }

    /// Returns the feature stored at `index`.
    fn get_feature(&self, index: usize) -> (feature: &T)
        requires
            index < self.features().len(),
        ensures
            *feature == self.features()[index as int],
    ;

    /// Appends a feature, giving it the next index.
    fn push_feature(&mut self, feature: T)
        requires
            old(self).features().len() < usize::MAX,
        ensures
            final(self).features() == old(self).features().push(feature),
    ;

    /// The number of features stored.
    fn feature_count(&self) -> (count: usize)
        ensures
            count == self.features().len(),
    ;
}

impl<T> FeatureStore<T> for Vec<T> {
    open spec fn features(&self) -> Seq<T> {
        self@
    }

    fn get_feature(&self, index: usize) -> (feature: &T) {
        &self[index]
    }

    fn push_feature(&mut self, feature: T) {
        self.push(feature);
    }

    fn feature_count(&self) -> (count: usize) {
        self.len()
    }
}

/// A vector stores its elements, in their order.
pub proof fn law_vectors_store_their_elements<T>(store: Vec<T>, index: int)
    ensures
        store.features().len() == store@.len(),
        0 <= index < store@.len() ==> store.features()[index] == store@[index],
{
}

} // verus!
