//! Distances between features, and what a search reports.

use crate::unit::Unit;
use vstd::prelude::*;

verus! {

/// A way to measure how far apart two features are.
///
/// Floating point distances fit in by their bits: positive floats are ordered
/// as their bit patterns are.
///
/// A distance depends on the metric and the two features alone. The index takes that
/// on trust of a metric that is not verified itself.
pub trait Metric<T> {
    /// The unsigned integer that distances are measured in.
    type Unit: Unit;

    /// The distance as a function of the two features.
    ///
    /// This is ghost code and is never run. A metric written in verified code
    /// says here what it measures; one written outside of it leaves the method
    /// out.
    closed spec fn spec_distance(&self, a: T, b: T) -> Self::Unit {
        arbitrary()
    }

    /// Measures how far `a` is from `b`.
    fn distance(&self, a: &T, b: &T) -> (distance: Self::Unit)
        ensures
            distance == self.spec_distance(*a, *b),
    ;
}

/// A node that a search came upon, and its distance from the query.
#[derive(Clone, Copy, Debug, PartialEq, Eq, PartialOrd, Ord, Hash)]
pub struct Neighbor<Unit> {
    /// Index of the node in the layer that was searched.
    pub index: usize,
    /// Distance of the node's feature from the query.
    pub distance: Unit,
}

/// The distance from `query` to the feature stored under each id.
pub open spec fn query_distance<T, Met: Metric<T>>(
    metric: Met,
    query: T,
    features: Seq<T>,
) -> spec_fn(usize) -> Met::Unit {
    |id: usize| metric.spec_distance(query, features[id as int])
}

/// The feature of the node at `index` of a layer with the given ids, while
/// `newcomer` is being put behind its last node and is not stored yet.
pub open spec fn feature_at<T>(features: Seq<T>, ids: Seq<usize>, newcomer: T, index: usize) -> T {
    if index < ids.len() {
        features[ids[index as int] as int]
    } else {
        newcomer
    }
}

/// The distance between two nodes of that layer, the newcomer among them.
pub open spec fn link_distance<T, Met: Metric<T>>(
    metric: Met,
    features: Seq<T>,
    ids: Seq<usize>,
    newcomer: T,
) -> spec_fn(usize, usize) -> Met::Unit {
    |a: usize, b: usize|
        metric.spec_distance(
            feature_at(features, ids, newcomer, a),
            feature_at(features, ids, newcomer, b),
        )
}

} // verus!
