//! The index, whatever its neighbor lists are made of.

use crate::feature_store::FeatureStore;
use crate::join::{choose_links, chosen, lemma_offered, offered, within};
use crate::metric::{Metric, Neighbor};
use crate::model::{anything, empty_index, first_live, lowered, raised, relinked, IndexView};
use crate::nodes::{filled, links_of, nodes_of, upper_layer, Layer, Node, NodeView, Slots, EMPTY};
use crate::params::{cap_level, capped_level, LevelSource, Params};
use crate::parts::{
    check_layer, check_links, check_upper_lists, check_zero_lists, fit_together, graph_of,
    layers_of,
};
use crate::search::{decides, may_answer, Probe, Searcher};
use crate::tombstones::{alive, live_below, Tombstones};
use crate::traverse::same_but_order;
use crate::unit::Unit;
use core::marker::PhantomData;
use vstd::prelude::*;

verus! {

/// Names the type of the features, which appears only behind their storage.
pub struct FeatureType<T> {
    marker: PhantomData<T>,
}

impl<T> FeatureType<T> {
    fn new() -> (marker: Self) {
        FeatureType { marker: PhantomData }
    }
}

impl<T> Clone for FeatureType<T> {
    fn clone(&self) -> (marker: Self) {
        FeatureType::new()
    }
}

/// An index: the features, the graph over them, and what it is built with.
#[derive(Clone)]
pub struct Index<Met, T, R, S, Z, U> {
    /// Contains the space metric.
    metric: Met,
    /// How many links a node has above the zero layer.
    m: usize,
    /// How many links a node has in the zero layer.
    m0: usize,
    /// Contains the neighbor lists of the zero layer.
    zero: Vec<Z>,
    /// Contains the features of the nodes, by id.
    features: S,
    /// Contains each layer above the zero layer.
    layers: Vec<Vec<Node<U>>>,
    /// Where the levels of insertions come from.
    prng: R,
    /// The parameters.
    params: Params,
    /// The soft-deleted nodes. Derived state: it is not written with the index, and
    /// whoever loads one marks them again.
    dead: Tombstones,
    marker: FeatureType<T>,
}

/// What is reported of a list where there is room for `room` nodes.
pub open spec fn reported<A>(found: Seq<A>, room: nat) -> Seq<A> {
    if found.len() <= room {
        found
    } else {
        found.take(room as int)
    }
}

/// What is reported is as much of what was found as there is room for, and each result
/// stands where it was found.
pub proof fn law_reports_are_prefixes<A>(found: Seq<A>, room: nat)
    ensures
        reported(found, room).len() <= found.len(),
        reported(found, room).len() <= room,
        reported(found, room).len() == found.len() || reported(found, room).len() == room,
        forall|i: int|
            0 <= i < reported(found, room).len() ==> #[trigger] reported(found, room)[i]
                == found[i],
        reported(found, room) == found.take(vstd::math::min(found.len() as int, room as int)),
{
    assert(reported(found, room) =~= found.take(
        vstd::math::min(found.len() as int, room as int),
    ));
}

/// An answer for every id, one that the filter can give if it can give one.
spec fn some_answers<F: Fn(usize) -> bool>(filter: F) -> spec_fn(usize) -> bool {
    |id: usize| call_ensures(filter, (id,), true)
}

/// Copies the front of a list into `dest`, as far as it goes, and hands out the part
/// that was written.
fn report<'a, U: Unit>(
    found: &Vec<Neighbor<U>>,
    dest: &'a mut [Neighbor<U>],
) -> (written: &'a mut [Neighbor<U>])
    ensures
        written@ == reported(found@, old(dest)@.len()),
        written@ == found@.take(vstd::math::min(found@.len() as int, old(dest)@.len() as int)),
        final(dest)@ == final(written)@ + old(dest)@.skip(written@.len() as int),
{
    let count: usize = if found.len() <= dest.len() {
        found.len()
    } else {
        dest.len()
    };
    let mut i: usize = 0;
    while i < count
        invariant
            i <= count <= found@.len(),
            count <= dest@.len(),
            dest@.len() == old(dest)@.len(),
            forall|j: int| 0 <= j < i ==> #[trigger] dest@[j] == found@[j],
            forall|j: int| i <= j < dest@.len() ==> #[trigger] dest@[j] == old(dest)@[j],
        decreases count - i,
    {
        dest[i] = found[i];
        i += 1;
    }
    let (written, rest) = dest.split_at_mut(count);
    assert(written@ =~= reported(found@, old(dest)@.len()));
    proof {
        law_reports_are_prefixes(found@, old(dest)@.len());
    }
    assert(rest@ =~= old(dest)@.skip(written@.len() as int));
    written
}

impl<Met, T, R, S: FeatureStore<T>, Z: Slots, U: Slots> Index<Met, T, R, S, Z, U> {
    /// What the index holds.
    pub closed spec fn view(&self) -> IndexView<Met, T> {
        IndexView {
            metric: self.metric,
            m: self.m,
            m0: self.m0,
            features: self.features.features(),
            graph: graph_of(self.zero@, self.layers@),
            params: self.params,
            dead: self.dead@,
        }
    }

    /// Where the levels of insertions come from.
    pub closed spec fn spec_prng(&self) -> R {
        self.prng
    }

    /// The feature storage.
    pub closed spec fn spec_storage(&self) -> S {
        self.features
    }

    /// Whether every neighbor list has the slots it should have, and nothing stands
    /// behind the first empty one.
    pub closed spec fn stored(&self) -> bool {
        &&& Z::can_hold(self.m0)
        &&& U::can_hold(self.m)
        &&& self.zero.is_tidy(self.m0 as nat)
        &&& forall|ix: int|
            0 <= ix < self.layers@.len() ==> (#[trigger] self.layers@[ix]).is_tidy(self.m as nat)
    }

    /// Whether the index is as it should be.
    pub open spec fn wf(&self) -> bool {
        self@.wf() && self.stored()
    }

    /// Makes an index without nodes.
    pub fn new(metric: Met, m: usize, m0: usize, features: S, params: Params, prng: R) -> (index:
        Self)
        requires
            Z::can_hold(m0),
            U::can_hold(m),
        ensures
            index.wf(),
            index@ == empty_index(metric, m, m0, features.features(), params),
            index.spec_prng() == prng,
            index.spec_storage() == features,
    {
        let index = Index {
            metric,
            m,
            m0,
            zero: Vec::new(),
            features,
            layers: Vec::new(),
            prng,
            params,
            dead: Tombstones::none(),
            marker: FeatureType::new(),
        };
        assert(index@ =~= empty_index(metric, m, m0, features.features(), params));
        index
    }
}

impl<Met: Metric<T>, T, R, S: FeatureStore<T>, Z: Slots, U: Slots> Index<Met, T, R, S, Z, U> {
    /// Brings a search down to a level.
    fn descend(&self, query: &T, searcher: &mut Searcher<Met::Unit>, to: usize)
        requires
            self@.wf(),
            self@.len() > 0,
            to <= self@.top(),
        ensures
            final(searcher)@ == self@.arrival(*query, to as nat),
    {
        let ghost view = self@;
        let probe = Probe { metric: &self.metric, features: &self.features, point: query };
        let none = Tombstones::none();
        let top: usize = self.layers.len();
        proof {
            view.lemma_start(*query, alive(Set::empty()), 1);
            if top > 0 {
                assert(view.graph.layer_formed(top - 1, view.m as nat));
                assert(view.graph.layers.last() == nodes_of(self.layers@[top - 1]@));
            }
        }
        let entry: usize = if top == 0 {
            0
        } else {
            self.layers[top - 1][0].zero_node
        };
        searcher.stand_at(Neighbor { index: 0, distance: probe.measure(entry) }, entry);
        let mut level: usize = top;
        while level > to
            invariant
                self@.wf(),
                view == self@,
                view.len() > 0,
                to <= level <= view.top(),
                none@ == Set::<usize>::empty(),
                *probe.metric == self.metric,
                *probe.features == self.features,
                *probe.point == *query,
                view.passage(*query, level as nat).sound(searcher@),
                searcher@.candidates.len() == 1,
                searcher@.nearest.len() == 1,
                view.descended(*query, searcher@, level as nat, to as nat) == view.arrival(
                    *query,
                    to as nat,
                ),
            decreases level,
        {
            let ix: usize = level - 1;
            let layer = &self.layers[ix];
            let ghost beam = view.passage(*query, level as nat);
            proof {
                view.lemma_layer(level as nat);
                assert(layer.layer() == view.graph.layer(level as nat));
                assert(beam == probe.beam(layer.layer(), none@, 1));
                beam.lemma_depth_first_keeps(searcher@);
            }
            probe.depth_first(layer, searcher, &none, 1);
            proof {
                view.lemma_lowered(
                    *query,
                    level as nat,
                    searcher@,
                    beam,
                    alive(Set::empty()),
                    1,
                );
                assert(beam.knows(searcher@, searcher@.nearest[0]));
            }
            lower(searcher, layer);
            level = ix;
        }
    }

    /// Searches the zero layer for the `ef` closest live nodes that a filter accepts.
    fn search_zero<F: Fn(usize) -> bool>(
        &self,
        query: &T,
        ef: usize,
        searcher: &mut Searcher<Met::Unit>,
        filter: &F,
    )
        requires
            self@.wf(),
            self@.len() > 0,
            ef > 0,
            forall|id: usize| id < self@.len() ==> #[trigger] call_requires(*filter, (id,)),
        ensures
            forall|pass: spec_fn(usize) -> bool| #[trigger]
                decides(*filter, pass) ==> same_but_order(
                    final(searcher)@,
                    self@.zero_run(*query, ef as nat, pass),
                ),
            exists|pass: spec_fn(usize) -> bool| #[trigger]
                may_answer(*filter, pass) && same_but_order(
                    final(searcher)@,
                    self@.zero_run(*query, ef as nat, pass),
                ),
            forall|i: int|
                0 <= i < final(searcher)@.nearest.len() ==> call_ensures(
                    *filter,
                    ((#[trigger] final(searcher)@.nearest[i]).index,),
                    true,
                ),
    {
        let ghost view = self@;
        let probe = Probe { metric: &self.metric, features: &self.features, point: query };
        self.descend(query, searcher, 0);
        proof {
            view.lemma_arrival(*query, 0, alive(view.dead), ef as nat);
            view.lemma_layer(0);
            assert(self.zero.layer() == view.graph.layer(0));
        }
        probe.best_first(&self.zero, searcher, &self.dead, filter, ef);
        proof {
            assert forall|pass: spec_fn(usize) -> bool| #[trigger]
                probe.filtered_beam(self.zero.layer(), self.dead@, pass, ef) == view.zero_beam(
                *query,
                ef as nat,
                pass,
            ) by {}
            let pass = choose|pass: spec_fn(usize) -> bool| #[trigger]
                may_answer(*filter, pass) && same_but_order(
                    searcher@,
                    view.zero_run(*query, ef as nat, pass),
                );
            let beam = view.zero_beam(*query, ef as nat, pass);
            let run = view.zero_run(*query, ef as nat, pass);
            view.lemma_zero_run(*query, ef as nat, pass);
            assert forall|i: int| 0 <= i < searcher@.nearest.len() implies call_ensures(
                *filter,
                ((#[trigger] searcher@.nearest[i]).index,),
                true,
            ) by {
                assert(beam.knows(run, run.nearest[i]));
            }
        }
    }

    /// Searches for the `ef` closest live nodes that a filter accepts.
    pub fn nearest_filtered<'a, F: Fn(usize) -> bool>(
        &self,
        query: &T,
        ef: usize,
        searcher: &mut Searcher<Met::Unit>,
        dest: &'a mut [Neighbor<Met::Unit>],
        filter: &F,
    ) -> (written: &'a mut [Neighbor<Met::Unit>])
        requires
            self@.can_search(ef as nat, 0),
            forall|id: usize| id < self@.len() ==> #[trigger] call_requires(*filter, (id,)),
        ensures
            forall|pass: spec_fn(usize) -> bool| #[trigger]
                decides(*filter, pass) ==> {
                    &&& written@ == reported(
                        self@.nearest(*query, ef as nat, pass),
                        old(dest)@.len(),
                    )
                    &&& written@ == self@.nearest(*query, ef as nat, pass).take(
                        vstd::math::min(
                            self@.nearest(*query, ef as nat, pass).len() as int,
                            old(dest)@.len() as int,
                        ),
                    )
                    &&& self@.zero_searched(
                        *query,
                        ef as nat,
                        pass,
                        old(searcher)@,
                        final(searcher)@,
                    )
                },
            exists|pass: spec_fn(usize) -> bool| #[trigger]
                may_answer(*filter, pass) && {
                    &&& written@ == reported(
                        self@.nearest(*query, ef as nat, pass),
                        old(dest)@.len(),
                    )
                    &&& written@ == self@.nearest(*query, ef as nat, pass).take(
                        vstd::math::min(
                            self@.nearest(*query, ef as nat, pass).len() as int,
                            old(dest)@.len() as int,
                        ),
                    )
                    &&& self@.zero_searched(
                        *query,
                        ef as nat,
                        pass,
                        old(searcher)@,
                        final(searcher)@,
                    )
                },
            forall|i: int|
                0 <= i < written@.len() ==> call_ensures(
                    *filter,
                    ((#[trigger] written@[i]).index,),
                    true,
                ),
            final(dest)@ == final(written)@ + old(dest)@.skip(written@.len() as int),
    {
        if ef == 0 || self.features.feature_count() == 0 {
            let (written, rest) = dest.split_at_mut(0);
            proof {
                let pass = some_answers(*filter);
                assert(may_answer(*filter, pass));
                assert(rest@ =~= old(dest)@.skip(0));
                assert(written@ =~= Seq::empty());
            }
            return written;
        }
        self.search_zero(query, ef, searcher, filter);
        report(searcher.found(), dest)
    }

    /// Searches for the `ef` closest live nodes, or, above the zero layer, for the
    /// closest node.
    pub fn search_layer<'a>(
        &self,
        query: &T,
        ef: usize,
        level: usize,
        searcher: &mut Searcher<Met::Unit>,
        dest: &'a mut [Neighbor<Met::Unit>],
    ) -> (written: &'a mut [Neighbor<Met::Unit>])
        requires
            self@.can_search(ef as nat, level as nat),
        ensures
            written@ == reported(
                self@.nearest_at(*query, ef as nat, level as nat),
                old(dest)@.len(),
            ),
            written@ == self@.nearest_at(*query, ef as nat, level as nat).take(
                vstd::math::min(
                    self@.nearest_at(*query, ef as nat, level as nat).len() as int,
                    old(dest)@.len() as int,
                ),
            ),
            self@.searched_at(
                *query,
                ef as nat,
                level as nat,
                old(searcher)@,
                final(searcher)@,
            ),
            final(dest)@ == final(written)@ + old(dest)@.skip(written@.len() as int),
    {
        if ef == 0 || self.features.feature_count() == 0 || level > self.layers.len() {
            let (written, rest) = dest.split_at_mut(0);
            proof {
                assert(rest@ =~= old(dest)@.skip(0));
                assert(written@ =~= Seq::empty());
            }
            return written;
        }
        if level == 0 {
            let all = |id: usize| -> (answer: bool)
                ensures
                    answer,
                { true };
            assert(decides(all, anything()));
            return self.nearest_filtered(query, ef, searcher, dest, &all);
        }
        let ghost view = self@;
        let probe = Probe { metric: &self.metric, features: &self.features, point: query };
        let none = Tombstones::none();
        self.descend(query, searcher, level);
        proof {
            view.lemma_arrival(*query, level as nat, alive(Set::empty()), 1);
            view.lemma_layer(level as nat);
            assert(self.layers@[level - 1].layer() == view.graph.layer(level as nat));
            assert(view.passage(*query, level as nat) == probe.beam(
                self.layers@[level - 1].layer(),
                none@,
                1,
            ));
        }
        probe.depth_first(&self.layers[level - 1], searcher, &none, 1);
        report(searcher.found(), dest)
    }

    /// Inserts a feature at a level.
    pub fn insert_at(
        &mut self,
        q: T,
        level: usize,
        searcher: &mut Searcher<Met::Unit>,
    ) -> (id: usize)
        requires
            old(self).wf(),
            old(self)@.features.len() < usize::MAX,
            level < usize::MAX,
        ensures
            final(self).wf(),
            final(self)@ == old(self)@.inserted(q, level as nat),
            final(self)@.len() == old(self)@.len() + 1,
            final(self).spec_prng() == old(self).spec_prng(),
            id == old(self)@.len(),
            final(searcher)@ == if old(self)@.len() == 0 {
                old(searcher)@
            } else {
                old(self)@.insertion_run(q, old(self)@.height(level as nat), 0)
            },
    {
        let ghost view = self@;
        let id: usize = self.zero.len();
        proof {
            view.lemma_inserted(q, level as nat);
        }
        if id == 0 {
            let links: Vec<usize> = Vec::new();
            self.zero.push(filled(&links, self.m0));
            self.features.push_feature(q);
            raise(&mut self.layers, 0, level, self.m);
            proof {
                assert(view.graph.layers =~= Seq::empty());
                assert(self@.graph.zero =~= seq![Seq::empty()]);
                assert(layers_of(self.layers@) =~= raised(Seq::empty(), 0, level as nat));
                assert(self@ =~= view.inserted(q, level as nat));
            }
            return 0;
        }
        let top: usize = self.layers.len();
        let height: usize = if level <= top {
            level
        } else {
            top
        };
        let ef: usize = self.params.get_ef_construction();
        let none = Tombstones::none();
        self.descend(&q, searcher, height);
        let mut current: usize = height;
        while current > 0
            invariant
                view == old(self)@,
                view.wf(),
                0 < view.len() < usize::MAX,
                id == view.len(),
                current <= height <= view.top(),
                none@ == Set::<usize>::empty(),
                ef == view.params.spec_ef_construction(),
                self.metric == view.metric,
                self.m == view.m,
                self.m0 == view.m0,
                self.features.features() == view.features,
                self.params == view.params,
                self.dead@ == view.dead,
                self.prng == old(self).prng,
                self.stored(),
                self.layers@.len() == view.top(),
                links_of(self.zero@) == view.graph.zero,
                forall|ix: int|
                    0 <= ix < view.top() ==> nodes_of((#[trigger] self.layers@[ix])@)
                        == if current <= ix < height {
                        view.joined_upper(q, height as nat, ix)
                    } else {
                        view.graph.layers[ix]
                    },
                searcher@ == view.insertion_arrival(q, height as nat, current as nat),
            decreases current,
        {
            let ix: usize = current - 1;
            let ghost beam = view.insertion_beam(q, current as nat);
            let probe = Probe { metric: &self.metric, features: &self.features, point: &q };
            proof {
                view.lemma_layer(current as nat);
                view.lemma_insertion_arrival(q, height as nat, current as nat);
                view.lemma_insertion_found(q, height as nat, current as nat);
                view.lemma_joined_upper(q, height as nat, ix as int);
                assert(view.graph.layer_formed(ix as int, view.m as nat));
                assert(nodes_of(self.layers@[ix as int]@) == view.graph.layers[ix as int]);
                assert(self.layers@[ix as int].layer() == view.graph.layer(current as nat));
                assert(beam == probe.beam(self.layers@[ix as int].layer(), none@, ef));
            }
            probe.depth_first(&self.layers[ix], searcher, &none, ef);
            let next_node: usize = if ix == 0 {
                id
            } else {
                self.layers[ix - 1].len()
            };
            proof {
                if ix > 0 {
                    assert(nodes_of(self.layers@[ix - 1]@) == view.graph.layers[ix - 1]);
                }
            }
            let ghost before = self.layers@;
            join_upper(
                &probe,
                &mut self.layers[ix],
                searcher.found(),
                self.m,
                id,
                next_node,
            );
            proof {
                assert(nodes_of(self.layers@[ix as int]@) == view.joined_upper(
                    q,
                    height as nat,
                    ix as int,
                ));
                assert forall|other: int| 0 <= other < view.top() implies nodes_of(
                    (#[trigger] self.layers@[other])@,
                ) == if ix <= other < height {
                    view.joined_upper(q, height as nat, other)
                } else {
                    view.graph.layers[other]
                } by {
                    if other != ix {
                        assert(self.layers@[other] == before[other]);
                    }
                }
            }
            lower(searcher, &self.layers[ix]);
            current = ix;
        }
        let ghost beam = view.insertion_beam(q, 0);
        let probe = Probe { metric: &self.metric, features: &self.features, point: &q };
        proof {
            view.lemma_layer(0);
            view.lemma_insertion_arrival(q, height as nat, 0);
            view.lemma_insertion_found(q, height as nat, 0);
            assert(self.zero.layer() == view.graph.layer(0));
            assert(beam == probe.beam(self.zero.layer(), self.dead@, ef));
        }
        probe.depth_first(&self.zero, searcher, &self.dead, ef);
        join_zero(&probe, &mut self.zero, searcher.found(), self.m0);
        assert(links_of(self.zero@) == view.joined_zero(q, height as nat));
        let ghost layers = Seq::new(
            view.top(),
            |ix: int|
                if ix < height {
                    view.joined_upper(q, height as nat, ix)
                } else {
                    view.graph.layers[ix]
                },
        );
        proof {
            assert(layers_of(self.layers@) =~= layers);
            assert forall|ix: int| 0 <= ix < self.layers@.len() implies (
            #[trigger] self.layers@[ix])@.len() > 0 by {
                assert(view.graph.layer_formed(ix, view.m as nat));
                assert(nodes_of(self.layers@[ix]@) == layers[ix]);
                if ix < height {
                    view.lemma_joined_upper(q, height as nat, ix);
                }
            }
        }
        raise(&mut self.layers, id, level, self.m);
        self.features.push_feature(q);
        assert(self@ =~= view.inserted(q, level as nat));
        id
    }

    /// Searches for the `num` closest live nodes.
    pub fn knn(&self, query: &T, num: usize) -> (neighbors: Vec<Neighbor<Met::Unit>>)
        requires
            num + 16 <= usize::MAX,
            self@.can_search((num + 16) as nat, 0),
        ensures
            neighbors@ == reported(
                self@.nearest(*query, (num + 16) as nat, anything()),
                num as nat,
            ),
            neighbors@ == self@.nearest(*query, (num + 16) as nat, anything()).take(
                vstd::math::min(
                    self@.nearest(*query, (num + 16) as nat, anything()).len() as int,
                    num as int,
                ),
            ),
    {
        let mut neighbors: Vec<Neighbor<Met::Unit>> = Vec::new();
        if self.features.feature_count() == 0 {
            return neighbors;
        }
        let mut searcher: Searcher<Met::Unit> = Searcher::new();
        let all = |id: usize| -> (answer: bool)
            ensures
                answer,
            { true };
        assert(decides(all, anything()));
        self.search_zero(query, num + 16, &mut searcher, &all);
        let found = searcher.found();
        let mut i: usize = 0;
        while i < found.len() && i < num
            invariant
                i <= found@.len(),
                i <= num,
                neighbors@ == found@.take(i as int),
            decreases found@.len() - i,
        {
            neighbors.push(found[i]);
            i += 1;
            assert(found@.take(i as int) =~= found@.take(i - 1).push(found@[i - 1]));
        }
        assert(neighbors@ =~= reported(found@, num as nat));
        proof {
            law_reports_are_prefixes(found@, num as nat);
        }
        neighbors
    }
}

impl<Met, T, R, S: FeatureStore<T>, Z: Slots, U: Slots> Index<Met, T, R, S, Z, U> {
    /// The feature of the node of an id.
    pub fn feature(&self, item: usize) -> (feature: &T)
        requires
            item < self@.features.len(),
        ensures
            *feature == self@.features[item as int],
    {
        self.features.get_feature(item)
    }

    /// The id of the node at an index of the layer at a level.
    pub fn layer_item_id(&self, level: usize, item: usize) -> (id: usize)
        requires
            level == 0 || self@.has_item(level as nat, item as int),
        ensures
            id == if level == 0 {
                item
            } else {
                self@.graph.layer(level as nat).ids[item as int]
            },
    {
        if level == 0 {
            item
        } else {
            self.layers[level - 1][item].zero_node
        }
    }

    /// The number of layers.
    pub fn layers(&self) -> (count: usize)
        requires
            self@.top() < usize::MAX,
        ensures
            count == self@.top() + 1,
    {
        self.layers.len() + 1
    }

    /// The number of nodes.
    pub fn len(&self) -> (count: usize)
        ensures
            count == self@.len(),
    {
        self.zero.len()
    }

    /// The number of nodes in the layer at a level.
    pub fn layer_len(&self, level: usize) -> (count: usize)
        ensures
            count == self@.layer_len(level as nat),
    {
        if level == 0 {
            self.features.feature_count()
        } else if level <= self.layers.len() {
            self.layers[level - 1].len()
        } else {
            0
        }
    }

    /// The number of nodes that were not soft-deleted.
    pub fn live_count(&self) -> (count: usize)
        ensures
            count == live_below(self@.dead, self@.len()),
    {
        self.dead.count_live(self.zero.len())
    }

    /// Whether the node of an id was soft-deleted.
    pub fn is_deleted(&self, id: usize) -> (deleted: bool)
        ensures
            deleted == self@.dead.contains(id),
    {
        self.dead.contains(id)
    }

    /// Soft-deletes the node of an id.
    pub fn mark_delete(&mut self, id: usize)
        requires
            id < isize::MAX,
        ensures
            final(self)@ == old(self)@.deleted(id),
            final(self).stored() == old(self).stored(),
            final(self).wf() == old(self).wf(),
            final(self).spec_prng() == old(self).spec_prng(),
            final(self).spec_storage() == old(self).spec_storage(),
            final(self).spec_zero() == old(self).spec_zero(),
            final(self).spec_layers() == old(self).spec_layers(),
    {
        self.dead.mark(id);
        assert(self@ =~= old(self)@.deleted(id));
    }

    /// Makes room for more nodes, as far as memory allows.
    pub fn reserve(&mut self, additional: usize)
        ensures
            final(self)@ == old(self)@,
            final(self).wf() == old(self).wf(),
            final(self).spec_prng() == old(self).spec_prng(),
            final(self).spec_storage() == old(self).spec_storage(),
    {
        let reserved = self.zero.try_reserve(additional);
        assert(self@ =~= old(self)@);
    }

    /// The first live node of a layer.
    fn first_live_of(&self, nodes: &Vec<Node<U>>) -> (id: Option<usize>)
        ensures
            id == first_live(upper_layer(nodes_of(nodes@)).ids, self@.dead),
    {
        let ghost ids = upper_layer(nodes_of(nodes@)).ids;
        let mut i: usize = 0;
        assert(ids.skip(0) =~= ids);
        while i < nodes.len()
            invariant
                i <= nodes@.len(),
                ids == upper_layer(nodes_of(nodes@)).ids,
                first_live(ids.skip(i as int), self@.dead) == first_live(ids, self@.dead),
            decreases nodes@.len() - i,
        {
            let id: usize = nodes[i].zero_node;
            assert(ids.skip(i as int)[0] == id);
            if !self.dead.contains(id) {
                return Some(id);
            }
            assert(ids.skip(i as int).drop_first() =~= ids.skip(i + 1));
            i += 1;
        }
        None
    }

    /// The first live node from the top down.
    pub fn entry(&self) -> (id: Option<usize>)
        ensures
            id == self@.entry(),
    {
        let ghost view = self@;
        if self.zero.len() == 0 {
            return None;
        }
        let mut level: usize = self.layers.len();
        while level > 0
            invariant
                view == self@,
                view.len() > 0,
                level <= view.top(),
                view.entry_below(level as nat) == view.entry(),
            decreases level,
        {
            let found = self.first_live_of(&self.layers[level - 1]);
            assert(nodes_of(self.layers@[level - 1]@) == view.graph.layers[level - 1]);
            if found.is_some() {
                return found;
            }
            level -= 1;
        }
        let ghost ids = view.graph.layer(0).ids;
        let mut id: usize = 0;
        assert(ids.skip(0) =~= ids);
        while id < self.zero.len()
            invariant
                view == self@,
                id <= view.len() <= usize::MAX,
                view.len() == self.zero@.len(),
                ids == view.graph.layer(0).ids,
                view.entry() == first_live(ids.skip(id as int), view.dead),
            decreases view.len() - id,
        {
            assert(ids.skip(id as int)[0] == id);
            if !self.dead.contains(id) {
                return Some(id);
            }
            assert(ids.skip(id as int).drop_first() =~= ids.skip(id + 1));
            id += 1;
        }
        None
    }

    /// How many links a node has above the zero layer.
    pub fn m(&self) -> (m: usize)
        ensures
            m == self@.m,
    {
        self.m
    }

    /// How many links a node has in the zero layer.
    pub fn m0(&self) -> (m0: usize)
        ensures
            m0 == self@.m0,
    {
        self.m0
    }
}

impl<
    Met: Metric<T>,
    T,
    R: LevelSource,
    S: FeatureStore<T>,
    Z: Slots,
    U: Slots,
> Index<Met, T, R, S, Z, U> {
    /// Inserts a feature at a level that is drawn for it.
    pub fn insert(&mut self, q: T, searcher: &mut Searcher<Met::Unit>) -> (id: usize)
        requires
            old(self).wf(),
            old(self)@.features.len() < usize::MAX,
        ensures
            final(self).wf(),
            id == old(self)@.len(),
            final(self)@.len() == old(self)@.len() + 1,
            exists|drawn: usize|
                R::draws(
                    old(self).spec_prng(),
                    old(self)@.m,
                    old(self)@.params.spec_level_scale(),
                    drawn,
                    final(self).spec_prng(),
                ) && final(self)@ == #[trigger] old(self)@.inserted(
                    q,
                    capped_level(drawn) as nat,
                ) && final(searcher)@ == if old(self)@.len() == 0 {
                    old(searcher)@
                } else {
                    old(self)@.insertion_run(
                        q,
                        old(self)@.height(capped_level(drawn) as nat),
                        0,
                    )
                },
    {
        let drawn: usize = self.prng.draw_level(self.m, self.params.get_level_scale());
        assert(self@ =~= old(self)@);
        self.insert_at(q, cap_level(drawn), searcher)
    }
}

/// Moves a search that is done with a layer to the layer below.
fn lower<X: Unit, U: Slots>(searcher: &mut Searcher<X>, nodes: &Vec<Node<U>>)
    requires
        old(searcher)@.nearest.len() > 0,
        old(searcher)@.nearest[0].index < nodes@.len(),
    ensures
        final(searcher)@ == lowered(nodes_of(nodes@), old(searcher)@),
{
    let best = searcher.found()[0];
    let index: usize = nodes[best.index].next_node;
    let id: usize = nodes[best.index].zero_node;
    searcher.stand_at(Neighbor { index, distance: best.distance }, id);
}

impl<Met, T, R, S: FeatureStore<T>, Z: Slots, U: Slots> Index<Met, T, R, S, Z, U> {
    /// The neighbor lists of the zero layer.
    pub closed spec fn spec_zero(&self) -> Seq<Z> {
        self.zero@
    }

    /// The layers above the zero layer.
    pub closed spec fn spec_layers(&self) -> Seq<Vec<Node<U>>> {
        self.layers@
    }

    /// An index holds what its parts make up, and they fit together if it is as it
    /// should be.
    pub proof fn lemma_parts(&self)
        ensures
            self.wf() ==> fit_together(
                self@.m as nat,
                self@.m0 as nat,
                self.spec_zero(),
                self.spec_layers(),
                self@.features.len(),
            ),
            self@.graph == graph_of(self.spec_zero(), self.spec_layers()),
            self@.features == self.spec_storage().features(),
    {
    }

    /// Puts an index together from its parts, whatever they hold. It is as it should be
    /// if and only if they fit together. No node of it is soft-deleted.
    pub fn from_parts(
        metric: Met,
        m: usize,
        m0: usize,
        zero: Vec<Z>,
        features: S,
        layers: Vec<Vec<Node<U>>>,
        prng: R,
        params: Params,
    ) -> (index: Self)
        requires
            Z::can_hold(m0),
            U::can_hold(m),
        ensures
            index.wf() <==> fit_together(
                m as nat,
                m0 as nat,
                zero@,
                layers@,
                features.features().len(),
            ),
            index@ == (IndexView {
                graph: graph_of(zero@, layers@),
                ..empty_index(metric, m, m0, features.features(), params)
            }),
            index.spec_prng() == prng,
            index.spec_storage() == features,
            index.spec_zero() == zero@,
            index.spec_layers() == layers@,
    {
        Index {
            metric,
            m,
            m0,
            zero,
            features,
            layers,
            prng,
            params,
            dead: Tombstones::none(),
            marker: FeatureType::new(),
        }
    }

    /// Whether what the index holds is as it should be, so that it can be searched
    /// wherever it has nodes.
    pub fn is_coherent(&self) -> (coherent: bool)
        ensures
            coherent == self@.wf(),
    {
        let height: usize = self.layers.len();
        let ghost graph = self@.graph;
        if height == usize::MAX || self.zero.len() > self.features.feature_count() || (
        self.zero.len() == 0 && height > 0) || !check_links(
            &self.zero,
            self.zero.len(),
            self.m0,
        ) {
            return false;
        }
        let mut ix: usize = 0;
        while ix < height
            invariant
                height == self.layers@.len(),
                graph == graph_of(self.zero@, self.layers@),
                ix <= height,
                forall|j: int| 0 <= j < ix ==> #[trigger] graph.layer_formed(j, self.m as nat),
            decreases height - ix,
        {
            if !check_layer(&self.zero, &self.layers, ix, self.m) {
                assert(!graph.layer_formed(ix as int, self.m as nat));
                return false;
            }
            ix += 1;
        }
        true
    }

    /// Whether the index is as it should be.
    pub fn is_well_formed(&self) -> (formed: bool)
        requires
            Z::can_hold(self@.m0),
            U::can_hold(self@.m),
        ensures
            formed == self.wf(),
    {
        if !self.is_coherent() || !check_zero_lists(&self.zero, self.m0) {
            return false;
        }
        let mut ix: usize = 0;
        while ix < self.layers.len()
            invariant
                ix <= self.layers@.len(),
                forall|j: int|
                    0 <= j < ix ==> (#[trigger] self.layers@[j]).is_tidy(self.m as nat),
            decreases self.layers@.len() - ix,
        {
            if !check_upper_lists(&self.layers[ix], self.m) {
                assert(!self.layers@[ix as int].is_tidy(self.m as nat));
                return false;
            }
            ix += 1;
        }
        true
    }

    /// The metric.
    pub fn metric(&self) -> (metric: &Met)
        ensures
            *metric == self@.metric,
    {
        &self.metric
    }

    /// The parameters.
    pub fn params(&self) -> (params: Params)
        ensures
            params == self@.params,
    {
        self.params
    }

    /// Where the levels of insertions come from.
    pub fn prng(&self) -> (prng: &R)
        ensures
            *prng == self.spec_prng(),
    {
        &self.prng
    }

    /// The feature storage.
    pub fn storage(&self) -> (features: &S)
        ensures
            *features == self.spec_storage(),
    {
        &self.features
    }

    /// The neighbor lists of the zero layer.
    pub fn zero_lists(&self) -> (zero: &Vec<Z>)
        ensures
            zero@ == self.spec_zero(),
    {
        &self.zero
    }

    /// The layers above the zero layer.
    pub fn upper_layers(&self) -> (layers: &Vec<Vec<Node<U>>>)
        ensures
            layers@ == self.spec_layers(),
    {
        &self.layers
    }
}

/// Puts layers on top that hold one node alone, as many as a level needs.
fn raise<U: Slots>(layers: &mut Vec<Vec<Node<U>>>, id: usize, level: usize, m: usize)
    requires
        U::can_hold(m),
        forall|ix: int|
            0 <= ix < old(layers)@.len() ==> (#[trigger] old(layers)@[ix]).is_tidy(m as nat)
                && old(layers)@[ix]@.len() > 0,
    ensures
        forall|ix: int|
            0 <= ix < final(layers)@.len() ==> (#[trigger] final(layers)@[ix]).is_tidy(m as nat),
        layers_of(final(layers)@) == raised(layers_of(old(layers)@), id, level as nat),
{
    while layers.len() < level
        invariant
            U::can_hold(m),
            forall|ix: int|
                0 <= ix < layers@.len() ==> (#[trigger] layers@[ix]).is_tidy(m as nat)
                    && layers@[ix]@.len() > 0,
            raised(layers_of(layers@), id, level as nat) == raised(
                layers_of(old(layers)@),
                id,
                level as nat,
            ),
        decreases level - layers@.len(),
    {
        let ghost before = layers_of(layers@);
        let count: usize = layers.len();
        let next_node: usize = if count == 0 {
            id
        } else {
            layers[count - 1].len() - 1
        };
        let links: Vec<usize> = Vec::new();
        let node = Node { zero_node: id, next_node, neighbors: filled::<U>(&links, m) };
        let mut layer: Vec<Node<U>> = Vec::new();
        layer.push(node);
        layers.push(layer);
        proof {
            assert(nodes_of(layer@) =~= seq![node@]);
            assert(node@.links =~= Seq::empty());
            assert(layers_of(layers@) =~= before.push(seq![node@]));
            if count > 0 {
                assert(before.last().len() == layers@[count - 1]@.len());
            }
        }
    }
}

/// Puts a node behind the last of a layer above the zero layer.
fn join_upper<'a, T, Met: Metric<T>, S: FeatureStore<T>, U: Slots>(
    probe: &Probe<'a, Met, T, S>,
    nodes: &mut Vec<Node<U>>,
    nearest: &Vec<Neighbor<Met::Unit>>,
    capacity: usize,
    zero_node: usize,
    next_node: usize,
)
    requires
        U::can_hold(capacity),
        old(nodes).is_tidy(capacity as nat),
        old(nodes)@.len() < EMPTY,
        within(old(nodes).layer().links, capacity as nat, old(nodes)@.len()),
        probe.measures(old(nodes).layer().ids),
        forall|i: int|
            0 <= i < nearest@.len() ==> (#[trigger] nearest@[i]).index < old(nodes)@.len(),
    ensures
        final(nodes).is_tidy(capacity as nat),
        nodes_of(final(nodes)@) == relinked(
            nodes_of(old(nodes)@),
            offered(
                probe.between(old(nodes).layer().ids),
                capacity as nat,
                old(nodes).layer().links,
                chosen(nearest@, capacity as nat),
            ),
        ).push(
            NodeView { zero_node, next_node, links: chosen(nearest@, capacity as nat) },
        ),
{
    let fresh: usize = nodes.len();
    let targets = choose_links(nearest, capacity);
    let ghost before = nodes@;
    let ghost links = nodes.layer().links;
    let ghost more = offered(
        probe.between(nodes.layer().ids),
        capacity as nat,
        links,
        targets@,
    );
    proof {
        assert forall|i: int| 0 <= i < targets@.len() implies (#[trigger] targets@[i])
            < fresh by {
            assert(targets@[i] == nearest@[i].index);
        }
        lemma_offered(probe.between(nodes.layer().ids), capacity as nat, links, targets@);
    }
    probe.offer(nodes, &targets, fresh, capacity);
    let ghost between = nodes@;
    proof {
        assert(nodes.layer().ids.len() == before.len());
        assert forall|i: int| 0 <= i < before.len() implies #[trigger] between[i]@ == (NodeView {
            links: more[i],
            ..before[i]@
        }) by {
            assert(nodes.layer().ids[i] == between[i].zero_node);
            assert(nodes.below()[i] == between[i].next_node);
            assert(nodes.layer().links[i] == between[i]@.links);
        }
    }
    let neighbors: U = filled(&targets, capacity);
    nodes.push(Node { zero_node, next_node, neighbors });
    assert(nodes_of(nodes@) =~= relinked(nodes_of(before), more).push(
        NodeView { zero_node, next_node, links: targets@ },
    ));
}

/// Puts a node behind the last of the zero layer.
fn join_zero<'a, T, Met: Metric<T>, S: FeatureStore<T>, Z: Slots>(
    probe: &Probe<'a, Met, T, S>,
    zero: &mut Vec<Z>,
    nearest: &Vec<Neighbor<Met::Unit>>,
    capacity: usize,
)
    requires
        Z::can_hold(capacity),
        old(zero).is_tidy(capacity as nat),
        old(zero)@.len() < EMPTY,
        within(old(zero).layer().links, capacity as nat, old(zero)@.len()),
        probe.measures(old(zero).layer().ids),
        forall|i: int|
            0 <= i < nearest@.len() ==> (#[trigger] nearest@[i]).index < old(zero)@.len(),
    ensures
        final(zero).is_tidy(capacity as nat),
        links_of(final(zero)@) == offered(
            probe.between(old(zero).layer().ids),
            capacity as nat,
            old(zero).layer().links,
            chosen(nearest@, capacity as nat),
        ).push(chosen(nearest@, capacity as nat)),
{
    let fresh: usize = zero.len();
    let targets = choose_links(nearest, capacity);
    let ghost links = zero.layer().links;
    let ghost near = probe.between(zero.layer().ids);
    proof {
        assert forall|i: int| 0 <= i < targets@.len() implies (#[trigger] targets@[i])
            < fresh by {
            assert(targets@[i] == nearest@[i].index);
        }
        lemma_offered(near, capacity as nat, links, targets@);
    }
    probe.offer(zero, &targets, fresh, capacity);
    let ghost between = zero@;
    let neighbors: Z = filled(&targets, capacity);
    zero.push(neighbors);
    assert(links_of(zero@) =~= links_of(between).push(targets@));
}

} // verus!
