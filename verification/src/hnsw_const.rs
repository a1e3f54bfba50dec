//! The index with degrees that are fixed at compile time.

use crate::feature_store::FeatureStore;
use crate::index::{reported, Index};
use crate::metric::{Metric, Neighbor};
use crate::model::{anything, empty_index, IndexView};
use crate::nodes::{NeighborNodes, Node};
use crate::params::{cap_level, capped_level, LevelSource, Params};
use crate::parts::{fit_together, graph_of};
use crate::search::{decides, may_answer, Searcher};
use crate::tombstones::live_below;
use vstd::prelude::*;

verus! {

/// This provides a HNSW implementation for any distance function.
///
/// The type `T` must have a [`Metric`] to get implementations. A node has at most `M`
/// links in each layer and `M0` in the zero layer.
///
/// The type `S` is the feature storage backend and defaults to [`Vec<T>`]. Supplying
/// another [`FeatureStore`] keeps the features outside the heap (in a memory mapping,
/// say) while the graph stays in memory.
#[derive(Clone)]
pub struct Hnsw<Met, T, R, const M: usize, const M0: usize, S = Vec<T>> {
    index: Index<Met, T, R, S, NeighborNodes<M0>, NeighborNodes<M>>,
}

impl<Met, T, R, const M: usize, const M0: usize, S: FeatureStore<T>> Hnsw<Met, T, R, M, M0, S> {
    /// What the index holds.
    pub closed spec fn view(&self) -> IndexView<Met, T> {
        self.index@
    }

    /// Where the levels of insertions come from.
    pub closed spec fn spec_prng(&self) -> R {
        self.index.spec_prng()
    }

    /// The feature storage.
    pub closed spec fn spec_storage(&self) -> S {
        self.index.spec_storage()
    }

    /// Whether the neighbor lists are stored as they should be.
    pub closed spec fn stored(&self) -> bool {
        self.index.stored()
    }

    /// Whether the index is as it should be.
    pub open spec fn wf(&self) -> bool {
        &&& self@.wf()
        &&& self@.m == M
        &&& self@.m0 == M0
        &&& self.stored()
    }
}

impl<Met, T, R: Default, const M: usize, const M0: usize> Hnsw<Met, T, R, M, M0, Vec<T>> {
    /// Creates a new HNSW with a PRNG which is default seeded to produce deterministic
    /// behavior.
    pub fn new(metric: Met) -> (hnsw: Self)
        ensures
            hnsw.wf(),
            hnsw@ == empty_index(metric, M, M0, Seq::<T>::empty(), hnsw@.params),
            hnsw@.params.is_default(),
            call_ensures(R::default, (), hnsw.spec_prng()),
    {
        let index = Index::new(metric, M, M0, Vec::new(), Params::new(), R::default());
        Hnsw { index }
    }

    /// Creates a new HNSW with a default seeded PRNG and with the specified params.
    pub fn new_params(metric: Met, params: Params) -> (hnsw: Self)
        ensures
            hnsw.wf(),
            hnsw@ == empty_index(metric, M, M0, Seq::<T>::empty(), params),
            call_ensures(R::default, (), hnsw.spec_prng()),
    {
        let index = Index::new(metric, M, M0, Vec::new(), params, R::default());
        Hnsw { index }
    }

    /// Creates a new HNSW with a default seeded PRNG, with the specified params and with
    /// room for `capacity` nodes, as far as memory allows.
    pub fn new_with_capacity(metric: Met, params: Params, capacity: usize) -> (hnsw: Self)
        ensures
            hnsw.wf(),
            hnsw@ == empty_index(metric, M, M0, Seq::<T>::empty(), params),
            call_ensures(R::default, (), hnsw.spec_prng()),
    {
        let mut features: Vec<T> = Vec::new();
        let reserved = features.try_reserve(capacity);
        let mut index = Index::new(metric, M, M0, features, params, R::default());
        index.reserve(capacity);
        Hnsw { index }
    }
}

impl<Met: Metric<T>, T, R: LevelSource, const M: usize, const M0: usize> Hnsw<
    Met,
    T,
    R,
    M,
    M0,
    Vec<T>,
> {
    /// Creates a HNSW with the passed `prng`.
    pub fn new_prng(metric: Met, prng: R) -> (hnsw: Self)
        ensures
            hnsw.wf(),
            hnsw@ == empty_index(metric, M, M0, Seq::<T>::empty(), hnsw@.params),
            hnsw@.params.is_default(),
            hnsw.spec_prng() == prng,
    {
        let index = Index::new(metric, M, M0, Vec::new(), Params::new(), prng);
        Hnsw { index }
    }

    /// Creates a HNSW with the passed `params` and `prng`.
    pub fn new_params_and_prng(metric: Met, params: Params, prng: R) -> (hnsw: Self)
        ensures
            hnsw.wf(),
            hnsw@ == empty_index(metric, M, M0, Seq::<T>::empty(), params),
            hnsw.spec_prng() == prng,
    {
        let index = Index::new(metric, M, M0, Vec::new(), params, prng);
        Hnsw { index }
    }
}

impl<
    Met: Metric<T>,
    T,
    R: LevelSource,
    const M: usize,
    const M0: usize,
    S: FeatureStore<T>,
> Hnsw<Met, T, R, M, M0, S> {
    /// Creates a HNSW over a custom feature storage backend.
    ///
    /// See [`FeatureStore`] for the contract a backend must uphold.
    pub fn new_with_storage(metric: Met, storage: S, prng: R) -> (hnsw: Self)
        ensures
            hnsw.wf(),
            hnsw@ == empty_index(metric, M, M0, storage.features(), hnsw@.params),
            hnsw@.params.is_default(),
            hnsw.spec_prng() == prng,
            hnsw.spec_storage() == storage,
    {
        let index = Index::new(metric, M, M0, storage, Params::new(), prng);
        Hnsw { index }
    }

    /// Creates a HNSW over a custom feature storage backend with the passed `params`.
    ///
    /// See [`FeatureStore`] for the contract a backend must uphold.
    pub fn new_with_storage_and_params(
        metric: Met,
        storage: S,
        params: Params,
        prng: R,
    ) -> (hnsw: Self)
        ensures
            hnsw.wf(),
            hnsw@ == empty_index(metric, M, M0, storage.features(), params),
            hnsw.spec_prng() == prng,
            hnsw.spec_storage() == storage,
    {
        let index = Index::new(metric, M, M0, storage, params, prng);
        Hnsw { index }
    }

    /// Inserts a feature at a level that is drawn for it, and returns its id.
    pub fn insert(&mut self, q: T, searcher: &mut Searcher<Met::Unit>) -> (id: usize)
        requires
            old(self).wf(),
            old(self)@.features.len() < usize::MAX,
        ensures
            final(self).wf(),
            id == old(self)@.len(),
            final(self)@.len() == old(self)@.len() + 1,
            exists|drawn: usize|
                R::draws(
                    old(self).spec_prng(),
                    old(self)@.m,
                    old(self)@.params.spec_level_scale(),
                    drawn,
                    final(self).spec_prng(),
                ) && final(self)@ == #[trigger] old(self)@.inserted(
                    q,
                    capped_level(drawn) as nat,
                ) && final(searcher)@ == if old(self)@.len() == 0 {
                    old(searcher)@
                } else {
                    old(self)@.insertion_run(
                        q,
                        old(self)@.height(capped_level(drawn) as nat),
                        0,
                    )
                },
    {
        self.index.insert(q, searcher)
    }

    /// Inserts a feature as if `drawn` had been drawn for it, and returns its id.
    pub fn insert_at_level(
        &mut self,
        q: T,
        drawn: usize,
        searcher: &mut Searcher<Met::Unit>,
    ) -> (id: usize)
        requires
            old(self).wf(),
            old(self)@.features.len() < usize::MAX,
        ensures
            final(self).wf(),
            id == old(self)@.len(),
            final(self)@.len() == old(self)@.len() + 1,
            final(self)@ == old(self)@.inserted(q, capped_level(drawn) as nat),
            final(self).spec_prng() == old(self).spec_prng(),
            final(searcher)@ == if old(self)@.len() == 0 {
                old(searcher)@
            } else {
                old(self)@.insertion_run(q, old(self)@.height(capped_level(drawn) as nat), 0)
            },
    {
        self.index.insert_at(q, cap_level(drawn), searcher)
    }

    /// Does a k-NN search where `q` is the query element, and puts as many of the
    /// nearest neighbors into `dest` as it holds. `ef` is the candidate pool size: it
    /// can be increased to get better recall at the expense of speed. If `ef` is less
    /// than `dest.len()` then `dest` will only be filled with `ef` elements. An `ef`
    /// of zero finds nothing.
    ///
    /// Soft-deleted nodes are passed through and never reported.
    ///
    /// Returns a slice of the filled neighbors.
    pub fn nearest<'a>(
        &self,
        q: &T,
        ef: usize,
        searcher: &mut Searcher<Met::Unit>,
        dest: &'a mut [Neighbor<Met::Unit>],
    ) -> (written: &'a mut [Neighbor<Met::Unit>])
        requires
            self@.can_search(ef as nat, 0),
        ensures
            written@ == reported(
                self@.nearest(*q, ef as nat, anything()),
                old(dest)@.len(),
            ),
            written@ == self@.nearest(*q, ef as nat, anything()).take(
                vstd::math::min(
                    self@.nearest(*q, ef as nat, anything()).len() as int,
                    old(dest)@.len() as int,
                ),
            ),
            self@.zero_searched(
                *q,
                ef as nat,
                anything(),
                old(searcher)@,
                final(searcher)@,
            ),
            final(dest)@ == final(written)@ + old(dest)@.skip(written@.len() as int),
    {
        self.search_layer(q, ef, 0, searcher, dest)
    }

    /// Does a k-NN search like [`nearest`](Self::nearest) for the nodes that a filter
    /// accepts, given their ids.
    ///
    /// The filter is applied during the search and not to its results, so that a
    /// selective one still fills `dest`. What it rejects is passed through like a
    /// soft-deleted node, as long as it is closer than the `ef` closest accepted nodes.
    /// The work grows as the share of accepted nodes shrinks.
    pub fn nearest_filtered<'a, F: Fn(usize) -> bool>(
        &self,
        q: &T,
        ef: usize,
        searcher: &mut Searcher<Met::Unit>,
        dest: &'a mut [Neighbor<Met::Unit>],
        filter: &F,
    ) -> (written: &'a mut [Neighbor<Met::Unit>])
        requires
            self@.can_search(ef as nat, 0),
            forall|id: usize| id < self@.len() ==> #[trigger] call_requires(*filter, (id,)),
        ensures
            forall|pass: spec_fn(usize) -> bool| #[trigger]
                decides(*filter, pass) ==> {
                    &&& written@ == reported(
                        self@.nearest(*q, ef as nat, pass),
                        old(dest)@.len(),
                    )
                    &&& written@ == self@.nearest(*q, ef as nat, pass).take(
                        vstd::math::min(
                            self@.nearest(*q, ef as nat, pass).len() as int,
                            old(dest)@.len() as int,
                        ),
                    )
                    &&& self@.zero_searched(
                        *q,
                        ef as nat,
                        pass,
                        old(searcher)@,
                        final(searcher)@,
                    )
                },
            exists|pass: spec_fn(usize) -> bool| #[trigger]
                may_answer(*filter, pass) && {
                    &&& written@ == reported(
                        self@.nearest(*q, ef as nat, pass),
                        old(dest)@.len(),
                    )
                    &&& written@ == self@.nearest(*q, ef as nat, pass).take(
                        vstd::math::min(
                            self@.nearest(*q, ef as nat, pass).len() as int,
                            old(dest)@.len() as int,
                        ),
                    )
                    &&& self@.zero_searched(
                        *q,
                        ef as nat,
                        pass,
                        old(searcher)@,
                        final(searcher)@,
                    )
                },
            forall|i: int|
                0 <= i < written@.len() ==> call_ensures(
                    *filter,
                    ((#[trigger] written@[i]).index,),
                    true,
                ),
            final(dest)@ == final(written)@ + old(dest)@.skip(written@.len() as int),
    {
        self.index.nearest_filtered(q, ef, searcher, dest, filter)
    }

    /// Performs the same algorithm as [`nearest`](Self::nearest), but stops on a
    /// particular layer of the network and returns the unique index on that layer
    /// rather than the item index. Above the zero layer it finds one node, live or not.
    ///
    /// If this is passed a `level` of `0`, then this has the exact same functionality
    /// as [`nearest`](Self::nearest) since the unique indices at layer `0` are the item
    /// indices.
    pub fn search_layer<'a>(
        &self,
        q: &T,
        ef: usize,
        level: usize,
        searcher: &mut Searcher<Met::Unit>,
        dest: &'a mut [Neighbor<Met::Unit>],
    ) -> (written: &'a mut [Neighbor<Met::Unit>])
        requires
            self@.can_search(ef as nat, level as nat),
        ensures
            written@ == reported(
                self@.nearest_at(*q, ef as nat, level as nat),
                old(dest)@.len(),
            ),
            written@ == self@.nearest_at(*q, ef as nat, level as nat).take(
                vstd::math::min(
                    self@.nearest_at(*q, ef as nat, level as nat).len() as int,
                    old(dest)@.len() as int,
                ),
            ),
            self@.searched_at(
                *q,
                ef as nat,
                level as nat,
                old(searcher)@,
                final(searcher)@,
            ),
            final(dest)@ == final(written)@ + old(dest)@.skip(written@.len() as int),
    {
        self.index.search_layer(q, ef, level, searcher, dest)
    }

    /// Does a k-NN search for the `num` nearest neighbors, with a candidate pool that is
    /// larger by 16.
    pub fn knn(&self, query: &T, num: usize) -> (neighbors: Vec<Neighbor<Met::Unit>>)
        requires
            num + 16 <= usize::MAX,
            self@.can_search((num + 16) as nat, 0),
        ensures
            neighbors@ == reported(
                self@.nearest(*query, (num + 16) as nat, anything()),
                num as nat,
            ),
            neighbors@ == self@.nearest(*query, (num + 16) as nat, anything()).take(
                vstd::math::min(
                    self@.nearest(*query, (num + 16) as nat, anything()).len() as int,
                    num as int,
                ),
            ),
    {
        self.index.knn(query, num)
    }

    /// Extract the feature from a particular level for a given item returned by
    /// [`search_layer`](Self::search_layer).
    pub fn layer_feature(&self, level: usize, item: usize) -> (feature: &T)
        requires
            level == 0 ==> item < self@.features.len(),
            level > 0 ==> self@.has_item(level as nat, item as int) && self@.graph.layer(
                level as nat,
            ).ids[item as int] < self@.features.len(),
        ensures
            *feature == self@.features[if level == 0 {
                item
            } else {
                self@.graph.layer(level as nat).ids[item as int]
            } as int],
    {
        self.index.feature(self.index.layer_item_id(level, item))
    }

    /// Retrieve the item ID for a given layer item returned by
    /// [`search_layer`](Self::search_layer).
    pub fn layer_item_id(&self, level: usize, item: usize) -> (id: usize)
        requires
            level == 0 || self@.has_item(level as nat, item as int),
        ensures
            id == if level == 0 {
                item
            } else {
                self@.graph.layer(level as nat).ids[item as int]
            },
    {
        self.index.layer_item_id(level, item)
    }

    /// The number of nodes in a layer, which for the zero layer is the number of
    /// features.
    pub fn layer_len(&self, level: usize) -> (count: usize)
        ensures
            count == self@.layer_len(level as nat),
    {
        self.index.layer_len(level)
    }

    /// Whether a layer has no nodes.
    pub fn layer_is_empty(&self, level: usize) -> (empty: bool)
        ensures
            empty == (self@.layer_len(level as nat) == 0),
    {
        self.index.layer_len(level) == 0
    }

    /// Extract the feature for a given item returned by [`nearest`](Self::nearest).
    pub fn feature(&self, item: usize) -> (feature: &T)
        requires
            item < self@.features.len(),
        ensures
            *feature == self@.features[item as int],
    {
        self.index.feature(item)
    }

    /// The number of layers, the zero layer among them.
    pub fn layers(&self) -> (count: usize)
        requires
            self@.top() < usize::MAX,
        ensures
            count == self@.top() + 1,
    {
        self.index.layers()
    }

    /// The number of nodes.
    pub fn len(&self) -> (count: usize)
        ensures
            count == self@.len(),
    {
        self.index.len()
    }

    /// Whether there are no nodes.
    pub fn is_empty(&self) -> (empty: bool)
        ensures
            empty == (self@.len() == 0),
    {
        self.index.len() == 0
    }

    /// Number of live (non-deleted) nodes in the index.
    pub fn live_count(&self) -> (count: usize)
        ensures
            count == live_below(self@.dead, self@.len()),
    {
        self.index.live_count()
    }

    /// Returns whether the node `id` has been soft-deleted.
    pub fn is_deleted(&self, id: usize) -> (deleted: bool)
        ensures
            deleted == self@.dead.contains(id),
    {
        self.index.is_deleted(id)
    }

    /// Soft-deletes the node `id`: it is excluded from search results but its slot and
    /// edges remain in the graph so navigation stays connected until the index is
    /// rebuilt. Idempotent.
    pub fn mark_delete(&mut self, id: usize)
        requires
            id < isize::MAX,
        ensures
            final(self)@ == old(self)@.deleted(id),
            final(self).wf() == old(self).wf(),
            final(self).spec_prng() == old(self).spec_prng(),
            final(self).spec_storage() == old(self).spec_storage(),
            final(self).spec_zero() == old(self).spec_zero(),
            final(self).spec_layers() == old(self).spec_layers(),
    {
        self.index.mark_delete(id)
    }

    /// The id of the current live navigation entry point, or `None` if the index has no
    /// live nodes. Scans the towers top-down and returns the first live node, so a
    /// deleted entry point is transparently skipped.
    pub fn entry(&self) -> (id: Option<usize>)
        ensures
            id == self@.entry(),
    {
        self.index.entry()
    }

    /// The neighbor lists of the zero layer.
    pub closed spec fn spec_zero(&self) -> Seq<NeighborNodes<M0>> {
        self.index.spec_zero()
    }

    /// The layers above the zero layer.
    pub closed spec fn spec_layers(&self) -> Seq<Vec<Node<NeighborNodes<M>>>> {
        self.index.spec_layers()
    }

    /// An index holds what its parts make up, and they fit together if it is as it
    /// should be.
    pub proof fn lemma_parts(&self)
        ensures
            self.wf() ==> fit_together(
                M as nat,
                M0 as nat,
                self.spec_zero(),
                self.spec_layers(),
                self@.features.len(),
            ),
            self@.graph == graph_of(self.spec_zero(), self.spec_layers()),
            self@.features == self.spec_storage().features(),
    {
        self.index.lemma_parts();
    }

    /// Puts an index together from the parts that one is written as. Nothing is asked
    /// of them: whether they make up an index that can be searched says
    /// [`is_coherent`](Self::is_coherent), and one that can be added to,
    /// [`is_well_formed`](Self::is_well_formed). No node of it is soft-deleted: whoever
    /// reads an index marks them again.
    pub fn from_parts(
        metric: Met,
        zero: Vec<NeighborNodes<M0>>,
        features: S,
        layers: Vec<Vec<Node<NeighborNodes<M>>>>,
        prng: R,
        params: Params,
    ) -> (hnsw: Self)
        ensures
            hnsw.wf() <==> fit_together(
                M as nat,
                M0 as nat,
                zero@,
                layers@,
                features.features().len(),
            ),
            hnsw@ == (IndexView {
                graph: graph_of(zero@, layers@),
                ..empty_index(metric, M, M0, features.features(), params)
            }),
            hnsw.spec_prng() == prng,
            hnsw.spec_storage() == features,
            hnsw.spec_zero() == zero@,
            hnsw.spec_layers() == layers@,
    {
        let index = Index::from_parts(metric, M, M0, zero, features, layers, prng, params);
        Hnsw { index }
    }

    /// Whether what the index holds is as it should be, so that it can be searched
    /// wherever it has nodes.
    pub fn is_coherent(&self) -> (coherent: bool)
        ensures
            coherent == self@.wf(),
    {
        self.index.is_coherent()
    }

    /// Whether the index is as it should be, as every index is that was built by
    /// insertions.
    pub fn is_well_formed(&self) -> (formed: bool)
        ensures
            formed == self.wf(),
    {
        self.index.m() == M && self.index.m0() == M0 && self.index.is_well_formed()
    }

    /// The metric.
    pub fn metric(&self) -> (metric: &Met)
        ensures
            *metric == self@.metric,
    {
        self.index.metric()
    }

    /// The parameters.
    pub fn params(&self) -> (params: Params)
        ensures
            params == self@.params,
    {
        self.index.params()
    }

    /// Where the levels of insertions come from.
    pub fn prng(&self) -> (prng: &R)
        ensures
            *prng == self.spec_prng(),
    {
        self.index.prng()
    }

    /// The feature storage.
    pub fn storage(&self) -> (features: &S)
        ensures
            *features == self.spec_storage(),
    {
        self.index.storage()
    }

    /// The neighbor lists of the zero layer.
    pub fn zero_lists(&self) -> (zero: &Vec<NeighborNodes<M0>>)
        ensures
            zero@ == self.spec_zero(),
    {
        self.index.zero_lists()
    }

    /// The layers above the zero layer.
    pub fn upper_layers(&self) -> (layers: &Vec<Vec<Node<NeighborNodes<M>>>>)
        ensures
            layers@ == self.spec_layers(),
    {
        self.index.upper_layers()
    }
}

impl<Met: Default, T, R: Default, const M: usize, const M0: usize> Default for Hnsw<
    Met,
    T,
    R,
    M,
    M0,
> {
    fn default() -> (hnsw: Self)
        ensures
            hnsw.wf(),
            hnsw@ == empty_index(hnsw@.metric, M, M0, Seq::<T>::empty(), hnsw@.params),
            hnsw@.params.is_default(),
            call_ensures(Met::default, (), hnsw@.metric),
            call_ensures(R::default, (), hnsw.spec_prng()),
    {
        Hnsw::new(Met::default())
    }
}

} // verus!
