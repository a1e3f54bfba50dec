//! The index with degrees that are chosen at run time.

use crate::feature_store::FeatureStore;
use crate::index::{reported, Index};
use crate::metric::{Metric, Neighbor};
use crate::model::{anything, empty_index, IndexView};
use crate::params::{cap_level, capped_level, LevelSource, Params};
use crate::search::{decides, may_answer, Searcher};
use crate::tombstones::live_below;
use vstd::prelude::*;

verus! {

/// Runtime-degree HNSW: behaves like [`Hnsw`](crate::Hnsw) but with the graph
/// out-degrees `m` (upper layers) and `m0` (zero layer) chosen at run time rather than
/// as compile-time constants.
///
/// An operator-configured, transient index cannot be compiled for every degree it may
/// be given. This type stores the degrees and sizes its neighbor lists accordingly, so
/// any `m >= 2` (`m0 >= m`) is supported. Given the same degrees, the same levels and
/// the same insertion order, it is the same index and finds the same nodes.
#[derive(Clone)]
pub struct HnswRuntime<Met, T, R, S = Vec<T>> {
    index: Index<Met, T, R, S, Vec<usize>, Vec<usize>>,
}

/// Whether degrees can form a navigable graph: `m < 2` cannot, and the level
/// distribution is undefined at `m == 1`; the zero layer must be at least as connected
/// as the layers above.
pub open spec fn navigable(m: usize, m0: usize) -> bool {
    2 <= m <= m0
}

/// Whether a neighbor list of so many slots fits in memory.
pub open spec fn allocatable(slots: usize) -> bool {
    slots * (usize::BITS / 8) <= isize::MAX
}

impl<Met, T, R, S: FeatureStore<T>> HnswRuntime<Met, T, R, S> {
    /// What the index holds.
    pub closed spec fn view(&self) -> IndexView<Met, T> {
        self.index@
    }

    /// Where the levels of insertions come from.
    pub closed spec fn spec_prng(&self) -> R {
        self.index.spec_prng()
    }

    /// The feature storage.
    pub closed spec fn spec_storage(&self) -> S {
        self.index.spec_storage()
    }

    /// Whether the neighbor lists are stored as they should be.
    pub closed spec fn stored(&self) -> bool {
        self.index.stored()
    }

    /// Whether the index is as it should be.
    pub open spec fn wf(&self) -> bool {
        &&& self@.wf()
        &&& navigable(self@.m, self@.m0)
        &&& self.stored()
    }
}

impl<Met, T, R: Default> HnswRuntime<Met, T, R, Vec<T>> {
    /// Creates a runtime-degree HNSW with a default-seeded deterministic PRNG.
    pub fn new(metric: Met, m: usize, m0: usize) -> (hnsw: Self)
        requires
            navigable(m, m0),
        ensures
            hnsw.wf(),
            hnsw@ == empty_index(metric, m, m0, Seq::<T>::empty(), hnsw@.params),
            hnsw@.params.is_default(),
            call_ensures(R::default, (), hnsw.spec_prng()),
    {
        let index = Index::new(metric, m, m0, Vec::new(), Params::new(), R::default());
        HnswRuntime { index }
    }

    /// Creates a runtime-degree HNSW with the specified params and a default-seeded
    /// PRNG.
    pub fn new_params(metric: Met, m: usize, m0: usize, params: Params) -> (hnsw: Self)
        requires
            navigable(m, m0),
        ensures
            hnsw.wf(),
            hnsw@ == empty_index(metric, m, m0, Seq::<T>::empty(), params),
            call_ensures(R::default, (), hnsw.spec_prng()),
    {
        let index = Index::new(metric, m, m0, Vec::new(), params, R::default());
        HnswRuntime { index }
    }
}

impl<Met, T, R: LevelSource> HnswRuntime<Met, T, R, Vec<T>> {
    /// Creates a runtime-degree HNSW with the passed `prng`.
    pub fn new_prng(metric: Met, m: usize, m0: usize, prng: R) -> (hnsw: Self)
        requires
            navigable(m, m0),
        ensures
            hnsw.wf(),
            hnsw@ == empty_index(metric, m, m0, Seq::<T>::empty(), hnsw@.params),
            hnsw@.params.is_default(),
            hnsw.spec_prng() == prng,
    {
        let index = Index::new(metric, m, m0, Vec::new(), Params::new(), prng);
        HnswRuntime { index }
    }

    /// Creates a runtime-degree HNSW with the passed `params` and `prng`.
    pub fn new_params_and_prng(
        metric: Met,
        m: usize,
        m0: usize,
        params: Params,
        prng: R,
    ) -> (hnsw: Self)
        requires
            navigable(m, m0),
        ensures
            hnsw.wf(),
            hnsw@ == empty_index(metric, m, m0, Seq::<T>::empty(), params),
            hnsw.spec_prng() == prng,
    {
        let index = Index::new(metric, m, m0, Vec::new(), params, prng);
        HnswRuntime { index }
    }
}

impl<Met, T, R: LevelSource, S: FeatureStore<T>> HnswRuntime<Met, T, R, S> {
    /// Creates a runtime-degree HNSW over a custom feature storage backend.
    ///
    /// See [`FeatureStore`] for the contract a backend must uphold.
    pub fn new_with_storage(metric: Met, m: usize, m0: usize, storage: S, prng: R) -> (hnsw: Self)
        requires
            navigable(m, m0),
        ensures
            hnsw.wf(),
            hnsw@ == empty_index(metric, m, m0, storage.features(), hnsw@.params),
            hnsw@.params.is_default(),
            hnsw.spec_prng() == prng,
            hnsw.spec_storage() == storage,
    {
        let index = Index::new(metric, m, m0, storage, Params::new(), prng);
        HnswRuntime { index }
    }

    /// Creates a runtime-degree HNSW over a custom feature storage backend with the passed
    /// `params`.
    ///
    /// See [`FeatureStore`] for the contract a backend must uphold.
    pub fn new_with_storage_and_params(
        metric: Met,
        m: usize,
        m0: usize,
        storage: S,
        params: Params,
        prng: R,
    ) -> (hnsw: Self)
        requires
            navigable(m, m0),
        ensures
            hnsw.wf(),
            hnsw@ == empty_index(metric, m, m0, storage.features(), params),
            hnsw.spec_prng() == prng,
            hnsw.spec_storage() == storage,
    {
        let index = Index::new(metric, m, m0, storage, params, prng);
        HnswRuntime { index }
    }

    /// Upper-layer out-degree.
    pub fn m(&self) -> (m: usize)
        ensures
            m == self@.m,
    {
        self.index.m()
    }

    /// Zero-layer out-degree.
    pub fn m0(&self) -> (m0: usize)
        ensures
            m0 == self@.m0,
    {
        self.index.m0()
    }

    /// Extract the feature for a given item returned by [`nearest`](Self::nearest).
    pub fn feature(&self, item: usize) -> (feature: &T)
        requires
            item < self@.features.len(),
        ensures
            *feature == self@.features[item as int],
    {
        self.index.feature(item)
    }

    /// The number of layers, the zero layer among them.
    pub fn layers(&self) -> (count: usize)
        requires
            self@.top() < usize::MAX,
        ensures
            count == self@.top() + 1,
    {
        self.index.layers()
    }

    /// The number of nodes.
    pub fn len(&self) -> (count: usize)
        ensures
            count == self@.len(),
    {
        self.index.len()
    }

    /// Whether there are no nodes.
    pub fn is_empty(&self) -> (empty: bool)
        ensures
            empty == (self@.len() == 0),
    {
        self.index.len() == 0
    }

    /// Number of live (non-deleted) nodes in the index.
    pub fn live_count(&self) -> (count: usize)
        ensures
            count == live_below(self@.dead, self@.len()),
    {
        self.index.live_count()
    }

    /// Returns whether the node `id` has been soft-deleted.
    pub fn is_deleted(&self, id: usize) -> (deleted: bool)
        ensures
            deleted == self@.dead.contains(id),
    {
        self.index.is_deleted(id)
    }

    /// Soft-deletes the node `id`: it is excluded from search results but its slot and
    /// edges remain in the graph so navigation stays connected until the index is
    /// rebuilt. Idempotent.
    pub fn mark_delete(&mut self, id: usize)
        requires
            id < isize::MAX,
        ensures
            final(self)@ == old(self)@.deleted(id),
            final(self).wf() == old(self).wf(),
            final(self).spec_prng() == old(self).spec_prng(),
            final(self).spec_storage() == old(self).spec_storage(),
    {
        self.index.mark_delete(id)
    }

    /// The id of the current live navigation entry point, or `None` if the index has no
    /// live nodes. Scans the towers top-down and returns the first live node, so a
    /// deleted entry point is transparently skipped.
    pub fn entry(&self) -> (id: Option<usize>)
        ensures
            id == self@.entry(),
    {
        self.index.entry()
    }
}

impl<Met: Metric<T>, T, R: LevelSource, S: FeatureStore<T>> HnswRuntime<Met, T, R, S> {
    /// Inserts a feature at a level that is drawn for it, and returns its id.
    pub fn insert(&mut self, q: T, searcher: &mut Searcher<Met::Unit>) -> (id: usize)
        requires
            old(self).wf(),
            old(self)@.features.len() < usize::MAX,
            allocatable(old(self)@.m0),
        ensures
            final(self).wf(),
            id == old(self)@.len(),
            final(self)@.len() == old(self)@.len() + 1,
            exists|drawn: usize|
                R::draws(
                    old(self).spec_prng(),
                    old(self)@.m,
                    old(self)@.params.spec_level_scale(),
                    drawn,
                    final(self).spec_prng(),
                ) && final(self)@ == #[trigger] old(self)@.inserted(
                    q,
                    capped_level(drawn) as nat,
                ) && final(searcher)@ == if old(self)@.len() == 0 {
                    old(searcher)@
                } else {
                    old(self)@.insertion_run(
                        q,
                        old(self)@.height(capped_level(drawn) as nat),
                        0,
                    )
                },
    {
        self.index.insert(q, searcher)
    }

    /// Inserts a feature as if `drawn` had been drawn for it, and returns its id.
    pub fn insert_at_level(
        &mut self,
        q: T,
        drawn: usize,
        searcher: &mut Searcher<Met::Unit>,
    ) -> (id: usize)
        requires
            old(self).wf(),
            old(self)@.features.len() < usize::MAX,
            allocatable(old(self)@.m0),
        ensures
            final(self).wf(),
            id == old(self)@.len(),
            final(self)@.len() == old(self)@.len() + 1,
            final(self)@ == old(self)@.inserted(q, capped_level(drawn) as nat),
            final(self).spec_prng() == old(self).spec_prng(),
            final(searcher)@ == if old(self)@.len() == 0 {
                old(searcher)@
            } else {
                old(self)@.insertion_run(q, old(self)@.height(capped_level(drawn) as nat), 0)
            },
    {
        self.index.insert_at(q, cap_level(drawn), searcher)
    }

    /// Does a k-NN search where `q` is the query element, and puts as many of the
    /// nearest neighbors into `dest` as it holds. `ef` is the candidate pool size: it
    /// can be increased to get better recall at the expense of speed. If `ef` is less
    /// than `dest.len()` then `dest` will only be filled with `ef` elements. An `ef`
    /// of zero finds nothing.
    ///
    /// Soft-deleted nodes are passed through and never reported.
    ///
    /// Returns a slice of the filled neighbors.
    pub fn nearest<'a>(
        &self,
        q: &T,
        ef: usize,
        searcher: &mut Searcher<Met::Unit>,
        dest: &'a mut [Neighbor<Met::Unit>],
    ) -> (written: &'a mut [Neighbor<Met::Unit>])
        requires
            self@.can_search(ef as nat, 0),
        ensures
            written@ == reported(
                self@.nearest(*q, ef as nat, anything()),
                old(dest)@.len(),
            ),
            written@ == self@.nearest(*q, ef as nat, anything()).take(
                vstd::math::min(
                    self@.nearest(*q, ef as nat, anything()).len() as int,
                    old(dest)@.len() as int,
                ),
            ),
            self@.zero_searched(
                *q,
                ef as nat,
                anything(),
                old(searcher)@,
                final(searcher)@,
            ),
            final(dest)@ == final(written)@ + old(dest)@.skip(written@.len() as int),
    {
        self.search_layer(q, ef, 0, searcher, dest)
    }

    /// Does a k-NN search like [`nearest`](Self::nearest) for the nodes that a filter
    /// accepts, given their ids.
    ///
    /// The filter is applied during the search and not to its results, so that a
    /// selective one still fills `dest`. What it rejects is passed through like a
    /// soft-deleted node, as long as it is closer than the `ef` closest accepted nodes.
    /// The work grows as the share of accepted nodes shrinks.
    pub fn nearest_filtered<'a, F: Fn(usize) -> bool>(
        &self,
        q: &T,
        ef: usize,
        searcher: &mut Searcher<Met::Unit>,
        dest: &'a mut [Neighbor<Met::Unit>],
        filter: &F,
    ) -> (written: &'a mut [Neighbor<Met::Unit>])
        requires
            self@.can_search(ef as nat, 0),
            forall|id: usize| id < self@.len() ==> #[trigger] call_requires(*filter, (id,)),
        ensures
            forall|pass: spec_fn(usize) -> bool| #[trigger]
                decides(*filter, pass) ==> {
                    &&& written@ == reported(
                        self@.nearest(*q, ef as nat, pass),
                        old(dest)@.len(),
                    )
                    &&& written@ == self@.nearest(*q, ef as nat, pass).take(
                        vstd::math::min(
                            self@.nearest(*q, ef as nat, pass).len() as int,
                            old(dest)@.len() as int,
                        ),
                    )
                    &&& self@.zero_searched(
                        *q,
                        ef as nat,
                        pass,
                        old(searcher)@,
                        final(searcher)@,
                    )
                },
            exists|pass: spec_fn(usize) -> bool| #[trigger]
                may_answer(*filter, pass) && {
                    &&& written@ == reported(
                        self@.nearest(*q, ef as nat, pass),
                        old(dest)@.len(),
                    )
                    &&& written@ == self@.nearest(*q, ef as nat, pass).take(
                        vstd::math::min(
                            self@.nearest(*q, ef as nat, pass).len() as int,
                            old(dest)@.len() as int,
                        ),
                    )
                    &&& self@.zero_searched(
                        *q,
                        ef as nat,
                        pass,
                        old(searcher)@,
                        final(searcher)@,
                    )
                },
            forall|i: int|
                0 <= i < written@.len() ==> call_ensures(
                    *filter,
                    ((#[trigger] written@[i]).index,),
                    true,
                ),
            final(dest)@ == final(written)@ + old(dest)@.skip(written@.len() as int),
    {
        self.index.nearest_filtered(q, ef, searcher, dest, filter)
    }

    /// Performs the same algorithm as [`nearest`](Self::nearest), but stops on a
    /// particular layer of the network and returns the unique index on that layer
    /// rather than the item index. Above the zero layer it finds one node, live or not.
    ///
    /// If this is passed a `level` of `0`, then this has the exact same functionality
    /// as [`nearest`](Self::nearest) since the unique indices at layer `0` are the item
    /// indices.
    pub fn search_layer<'a>(
        &self,
        q: &T,
        ef: usize,
        level: usize,
        searcher: &mut Searcher<Met::Unit>,
        dest: &'a mut [Neighbor<Met::Unit>],
    ) -> (written: &'a mut [Neighbor<Met::Unit>])
        requires
            self@.can_search(ef as nat, level as nat),
        ensures
            written@ == reported(
                self@.nearest_at(*q, ef as nat, level as nat),
                old(dest)@.len(),
            ),
            written@ == self@.nearest_at(*q, ef as nat, level as nat).take(
                vstd::math::min(
                    self@.nearest_at(*q, ef as nat, level as nat).len() as int,
                    old(dest)@.len() as int,
                ),
            ),
            self@.searched_at(
                *q,
                ef as nat,
                level as nat,
                old(searcher)@,
                final(searcher)@,
            ),
            final(dest)@ == final(written)@ + old(dest)@.skip(written@.len() as int),
    {
        self.index.search_layer(q, ef, level, searcher, dest)
    }
}

impl<Met: Default, T, R: Default> Default for HnswRuntime<Met, T, R> {
    /// Has the degrees 12 and 24.
    fn default() -> (hnsw: Self)
        ensures
            hnsw.wf(),
            hnsw@ == empty_index(hnsw@.metric, 12, 24, Seq::<T>::empty(), hnsw@.params),
            hnsw@.params.is_default(),
            call_ensures(Met::default, (), hnsw@.metric),
            call_ensures(R::default, (), hnsw.spec_prng()),
    {
        HnswRuntime::new(Met::default(), 12, 24)
    }
}

/// The degrees that an index can have: at least two links per node, and in the zero
/// layer no fewer than above. A list fits in memory if its bytes can be counted.
pub proof fn law_runtime_degrees(m: usize, m0: usize)
    ensures
        navigable(m, m0) <==> m >= 2 && m0 >= m,
        m0 <= 0x0fff_ffff ==> allocatable(m0),
{
    assert(usize::BITS == 32 || usize::BITS == 64);
    if m0 <= 0x0fff_ffff {
        if usize::BITS == 32 {
            assert(m0 * 4 <= isize::MAX);
        } else {
            assert(m0 * 8 <= isize::MAX);
        }
    }
}

} // verus!
