//! What each operation on an index comes to, said of what goes into it and what comes out
//! of it.

use crate::join::{chosen, lemma_offered_others, lemma_offered_target, offered};
use crate::metric::{Metric, Neighbor};
use crate::model::{
    anything, empty_index, first_live, lowered, raised, relinked, GraphView, IndexView,
};
use crate::nodes::{tidy, upper_layer, Layer, Node, NodeView, Slots};
use crate::params::Params;
use crate::parts::{fit_together, graph_of};
use crate::search::{blank, decides, may_answer, standing_at};
use crate::select::{
    adopted, law_lone_candidates_keep_their_links, law_selection_covers_every_direction, selected,
};
use crate::tombstones::alive;
use crate::traverse::{same_but_order, Beam, LayerView, Run};
use crate::unit::Unit;
use vstd::prelude::*;

verus! {

// ---------------------------------------------------------------------------
// What an index holds
// ---------------------------------------------------------------------------

impl GraphView {
    /// The layer at a level is the zero layer or one of those above, with its links and
    /// its ids.
    pub proof fn law_levels_are_layers(self, level: nat, i: int)
        requires
            self.zero.len() <= usize::MAX,
            level <= self.layers.len(),
        ensures
            level == 0 ==> self.layer(level).links == self.zero && self.layer(level).ids.len()
                == self.zero.len() && (0 <= i < self.zero.len() ==> self.layer(level).ids[i] as int
                == i),
            level > 0 ==> self.layer(level).links.len() == self.layers[level - 1].len()
                && self.layer(level).ids.len() == self.layers[level - 1].len() && (0 <= i
                < self.layers[level - 1].len() ==> self.layer(level).links[i]
                == self.layers[level - 1][i].links && self.layer(level).ids[i]
                == self.layers[level - 1][i].zero_node),
    {
    }
}

/// A new index has no nodes and no layers, nothing is soft-deleted, and it holds what it
/// was made with.
pub proof fn law_new_indexes_are_empty<Met, T>(
    metric: Met,
    m: usize,
    m0: usize,
    features: Seq<T>,
    params: Params,
    id: usize,
)
    ensures
        ({
            let index = empty_index(metric, m, m0, features, params);
            &&& index.metric == metric
            &&& index.m == m
            &&& index.m0 == m0
            &&& index.features == features
            &&& index.params == params
            &&& index.len() == 0
            &&& index.graph.zero.len() == 0
            &&& index.top() == 0
            &&& index.graph.layers.len() == 0
            &&& !index.dead.contains(id)
            &&& index.entry() is None
            &&& index.wf()
        }),
{
}

impl<T, Met> IndexView<Met, T> {
    /// An index counts its nodes and its layers. The size of the zero layer is that of
    /// the storage, the size of another the number of its nodes, and a layer that does
    /// not exist has none. An item is a node of a layer that exists.
    pub proof fn law_layers_are_counted(self, level: nat, item: int)
        ensures
            self.len() == self.graph.zero.len(),
            self.top() == self.graph.layers.len(),
            self.layer_len(0) == self.features.len(),
            0 < level <= self.graph.layers.len() ==> self.layer_len(level)
                == self.graph.layers[level - 1].len(),
            level > self.graph.layers.len() ==> self.layer_len(level) == 0,
            0 < level ==> (self.has_item(level, item) <==> 0 <= item < self.layer_len(level)),
            self.height(level) <= level,
            self.height(level) <= self.graph.layers.len(),
            self.height(level) == level || self.height(level) == self.graph.layers.len(),
    {
    }

    /// What it is for an index to be as it should be: every link leads to a node of its
    /// layer and no node has more than its degree allows, the layers have nodes and are
    /// no larger than the zero layer, every node leads to itself in the layer below, and
    /// every node has a feature.
    pub proof fn law_what_is_well_formed(self)
        ensures
            self.wf() <==> {
                let zero = self.graph.zero;
                let layers = self.graph.layers;
                &&& zero.len() <= usize::MAX
                &&& zero.len() <= self.features.len()
                &&& layers.len() < usize::MAX
                &&& zero.len() == 0 ==> layers.len() == 0
                &&& forall|node: int|
                    0 <= node < zero.len() ==> (#[trigger] zero[node]).len() <= self.m0
                &&& forall|node: int, slot: int|
                    0 <= node < zero.len() && 0 <= slot < zero[node].len() ==> (
                    #[trigger] zero[node][slot]) < zero.len()
                &&& forall|ix: int|
                    0 <= ix < layers.len() ==> 0 < (#[trigger] layers[ix]).len() <= zero.len()
                &&& forall|ix: int, node: int|
                    0 <= ix < layers.len() && 0 <= node < layers[ix].len() ==> {
                        let found = #[trigger] layers[ix][node];
                        &&& found.links.len() <= self.m
                        &&& found.zero_node < zero.len()
                        &&& ix == 0 ==> found.next_node == found.zero_node
                        &&& ix > 0 ==> found.next_node < layers[ix - 1].len() && layers[ix
                            - 1][found.next_node as int].zero_node == found.zero_node
                    }
                &&& forall|ix: int, node: int, slot: int|
                    0 <= ix < layers.len() && 0 <= node < layers[ix].len() && 0 <= slot
                        < layers[ix][node].links.len() ==> (
                    #[trigger] layers[ix][node].links[slot]) < layers[ix].len()
            },
    {
        let zero = self.graph.zero;
        let layers = self.graph.layers;
        let m = self.m as nat;
        if self.wf() {
            assert forall|ix: int| 0 <= ix < layers.len() implies 0 < (
            #[trigger] layers[ix]).len() <= zero.len() by {
                assert(self.graph.layer_formed(ix, m));
            }
            assert forall|ix: int, node: int|
                0 <= ix < layers.len() && 0 <= node < layers[ix].len() implies {
                let found = #[trigger] layers[ix][node];
                &&& found.links.len() <= self.m
                &&& found.zero_node < zero.len()
                &&& ix == 0 ==> found.next_node == found.zero_node
                &&& ix > 0 ==> found.next_node < layers[ix - 1].len() && layers[ix
                    - 1][found.next_node as int].zero_node == found.zero_node
            } by {
                assert(self.graph.layer_formed(ix, m));
                assert(upper_layer(layers[ix]).links[node]
                    == layers[ix][node].links);
                assert(self.graph.anchored(ix, layers[ix][node]));
            }
            assert forall|ix: int, node: int, slot: int|
                0 <= ix < layers.len() && 0 <= node < layers[ix].len() && 0 <= slot
                    < layers[ix][node].links.len() implies (
            #[trigger] layers[ix][node].links[slot]) < layers[ix].len() by {
                assert(self.graph.layer_formed(ix, m));
                assert(upper_layer(layers[ix]).links[node][slot]
                    == layers[ix][node].links[slot]);
            }
        }
        if {
            &&& zero.len() <= usize::MAX
            &&& zero.len() <= self.features.len()
            &&& layers.len() < usize::MAX
            &&& zero.len() == 0 ==> layers.len() == 0
            &&& forall|node: int|
                0 <= node < zero.len() ==> (#[trigger] zero[node]).len() <= self.m0
            &&& forall|node: int, slot: int|
                0 <= node < zero.len() && 0 <= slot < zero[node].len() ==> (
                #[trigger] zero[node][slot]) < zero.len()
            &&& forall|ix: int|
                0 <= ix < layers.len() ==> 0 < (#[trigger] layers[ix]).len() <= zero.len()
            &&& forall|ix: int, node: int|
                0 <= ix < layers.len() && 0 <= node < layers[ix].len() ==> {
                    let found = #[trigger] layers[ix][node];
                    &&& found.links.len() <= self.m
                    &&& found.zero_node < zero.len()
                    &&& ix == 0 ==> found.next_node == found.zero_node
                    &&& ix > 0 ==> found.next_node < layers[ix - 1].len() && layers[ix
                        - 1][found.next_node as int].zero_node == found.zero_node
                }
            &&& forall|ix: int, node: int, slot: int|
                0 <= ix < layers.len() && 0 <= node < layers[ix].len() && 0 <= slot
                    < layers[ix][node].links.len() ==> (
                #[trigger] layers[ix][node].links[slot]) < layers[ix].len()
        } {
            assert forall|ix: int| 0 <= ix < layers.len() implies #[trigger] self.graph.layer_formed(
                ix,
                m,
            ) by {
                let nodes = layers[ix];
                let links = upper_layer(nodes).links;
                assert forall|node: int| 0 <= node < links.len() implies (
                #[trigger] links[node]).len() <= m by {
                    assert(layers[ix][node].links == links[node]);
                }
                assert forall|node: int, slot: int|
                    0 <= node < links.len() && 0 <= slot < links[node].len() implies (
                #[trigger] links[node][slot]) < nodes.len() by {
                    assert(layers[ix][node].links[slot] == links[node][slot]);
                }
                assert forall|i: int| 0 <= i < nodes.len() implies (#[trigger] nodes[i]).zero_node
                    < zero.len() && self.graph.anchored(ix, nodes[i]) by {
                    assert(layers[ix][i] == nodes[i]);
                }
            }
        }
    }

    /// A search can be made of any index that is as it should be and has a node for its
    /// features, and of any index at all if it has nothing to look for.
    pub proof fn law_what_can_be_searched(self, ef: nat, level: nat)
        ensures
            self.wf() && (self.features.len() == 0 || self.len() > 0) ==> self.can_search(
                ef,
                level,
            ),
            self.wf() && level > 0 ==> self.can_search(ef, level),
            ef == 0 ==> self.can_search(ef, level),
            self.features.len() == 0 ==> self.can_search(ef, level),
            level > self.graph.layers.len() ==> self.can_search(ef, level),
            self.searchable() <==> self.wf() && (self.features.len() == 0 || self.len() > 0),
    {
        if self.wf() && 0 < level <= self.top() {
            self.lemma_layer(level);
        }
    }

    /// The entry point, as a level and a place in its layer: it is live, nothing ahead of
    /// it in its layer is, and no node of a layer above is. There is none if and only if
    /// no node of any layer is live.
    pub proof fn law_entry_is_the_first_live_node(self) -> (place: (nat, int))
        ensures
            self.entry() is None && self.len() > 0 ==> forall|level: nat, i: int|
                level <= self.top() && 0 <= i < self.graph.layer(level).ids.len()
                    ==> self.dead.contains(#[trigger] self.graph.layer(level).ids[i]),
            self.entry() matches Some(id) ==> {
                let ids = self.graph.layer(place.0).ids;
                &&& self.len() > 0
                &&& place.0 <= self.top()
                &&& 0 <= place.1 < ids.len()
                &&& ids[place.1] == id
                &&& !self.dead.contains(id)
                &&& forall|i: int| 0 <= i < place.1 ==> self.dead.contains(#[trigger] ids[i])
                &&& forall|level: nat, i: int|
                    place.0 < level <= self.top() && 0 <= i < self.graph.layer(level).ids.len()
                        ==> self.dead.contains(#[trigger] self.graph.layer(level).ids[i])
            },
    {
        self.lemma_entry_place(self.top())
    }

    proof fn lemma_entry_place(self, from: nat) -> (place: (nat, int))
        ensures
            self.entry_below(from) is None ==> forall|level: nat, i: int|
                level <= from && 0 <= i < self.graph.layer(level).ids.len()
                    ==> self.dead.contains(#[trigger] self.graph.layer(level).ids[i]),
            self.entry_below(from) matches Some(id) ==> {
                let ids = self.graph.layer(place.0).ids;
                &&& place.0 <= from
                &&& 0 <= place.1 < ids.len()
                &&& ids[place.1] == id
                &&& !self.dead.contains(id)
                &&& forall|i: int| 0 <= i < place.1 ==> self.dead.contains(#[trigger] ids[i])
                &&& forall|level: nat, i: int|
                    place.0 < level <= from && 0 <= i < self.graph.layer(level).ids.len()
                        ==> self.dead.contains(#[trigger] self.graph.layer(level).ids[i])
            },
        decreases from,
    {
        let ids = self.graph.layer(from).ids;
        let i = lemma_first_live_place(ids, self.dead);
        if i < ids.len() || from == 0 {
            (from, i)
        } else {
            let place = self.lemma_entry_place((from - 1) as nat);
            assert forall|level: nat, k: int|
                place.0 < level <= from && 0 <= k < self.graph.layer(level).ids.len()
                    && self.entry_below(from) is Some implies self.dead.contains(
                #[trigger] self.graph.layer(level).ids[k],
            ) by {
                if level == from {
                    assert(ids[k] == self.graph.layer(level).ids[k]);
                }
            }
            place
        }
    }

    /// Soft deletion marks the id and changes nothing else.
    pub proof fn law_deletion_changes_one_mark(self, id: usize, other: usize)
        ensures
            self.deleted(id).dead.contains(other) <==> self.dead.contains(other) || other == id,
            self.deleted(id).graph == self.graph,
            self.deleted(id).features == self.features,
            self.deleted(id).metric == self.metric,
            self.deleted(id).params == self.params,
            self.deleted(id).m == self.m,
            self.deleted(id).m0 == self.m0,
    {
    }
}

proof fn lemma_first_live_place(ids: Seq<usize>, dead: Set<usize>) -> (place: int)
    ensures
        0 <= place <= ids.len(),
        forall|i: int| 0 <= i < place ==> dead.contains(#[trigger] ids[i]),
        place < ids.len() ==> !dead.contains(ids[place]) && first_live(ids, dead) == Some(
            ids[place],
        ),
        place == ids.len() ==> first_live(ids, dead) is None,
    decreases ids.len(),
{
    if ids.len() == 0 || !dead.contains(ids[0]) {
        0
    } else {
        let rest = ids.drop_first();
        let place = lemma_first_live_place(rest, dead) + 1;
        assert forall|i: int| 0 <= i < place implies dead.contains(#[trigger] ids[i]) by {
            if i > 0 {
                assert(rest[i - 1] == ids[i]);
            }
        }
        place
    }
}

/// The parts of an index make up the graph that they hold: the links of a node are its
/// slots up to the first empty one, and a node above the zero layer has the id and the
/// place below that it was given.
pub proof fn law_parts_make_up_the_graph<Z: Slots, U: Slots>(
    zero: Seq<Z>,
    layers: Seq<Vec<Node<U>>>,
    ix: int,
    i: int,
)
    ensures
        ({
            let graph = graph_of(zero, layers);
            &&& graph.zero.len() == zero.len()
            &&& graph.layers.len() == layers.len()
            &&& 0 <= i < zero.len() ==> {
                let slots = zero[i].slots();
                &&& graph.zero[i].is_prefix_of(slots)
                &&& !graph.zero[i].contains(usize::MAX)
                &&& graph.zero[i].len() < slots.len() ==> slots[graph.zero[i].len() as int]
                    == usize::MAX
            }
            &&& 0 <= ix < layers.len() ==> graph.layers[ix].len() == layers[ix]@.len()
            &&& 0 <= ix < layers.len() && 0 <= i < layers[ix]@.len() ==> {
                let node = layers[ix]@[i];
                let slots = node.neighbors.slots();
                let links = graph.layers[ix][i].links;
                &&& graph.layers[ix][i].zero_node == node.zero_node
                &&& graph.layers[ix][i].next_node == node.next_node
                &&& links.is_prefix_of(slots)
                &&& !links.contains(usize::MAX)
                &&& links.len() < slots.len() ==> slots[links.len() as int] == usize::MAX
            }
        }),
{
    if 0 <= i < zero.len() {
        crate::nodes::law_live_slots(zero[i].slots());
    }
    if 0 <= ix < layers.len() && 0 <= i < layers[ix]@.len() {
        crate::nodes::law_live_slots(layers[ix]@[i].neighbors.slots());
    }
}

/// Parts fit together if and only if the index that they make up is as it should be and
/// every neighbor list has its slots, with nothing behind the first empty one.
pub proof fn law_what_fits_together<Met, T, Z: Slots, U: Slots>(
    index: IndexView<Met, T>,
    zero: Seq<Z>,
    layers: Seq<Vec<Node<U>>>,
)
    requires
        index.graph == graph_of(zero, layers),
    ensures
        fit_together(index.m as nat, index.m0 as nat, zero, layers, index.features.len()) <==> {
            &&& index.wf()
            &&& forall|i: int| 0 <= i < zero.len() ==> (#[trigger] zero[i]).slots().len() == index.m0
            &&& forall|i: int, a: int, b: int|
                #![trigger zero[i].slots()[a], zero[i].slots()[b]]
                0 <= i < zero.len() && 0 <= a < b < zero[i].slots().len() && zero[i].slots()[a]
                    == usize::MAX ==> zero[i].slots()[b] == usize::MAX
            &&& forall|ix: int, i: int|
                0 <= ix < layers.len() && 0 <= i < layers[ix]@.len() ==> (
                #[trigger] layers[ix]@[i]).neighbors.slots().len() == index.m
            &&& forall|ix: int, i: int, a: int, b: int|
                #![trigger layers[ix]@[i].neighbors.slots()[a], layers[ix]@[i].neighbors.slots()[b]]
                0 <= ix < layers.len() && 0 <= i < layers[ix]@.len() && 0 <= a < b
                    < layers[ix]@[i].neighbors.slots().len() && layers[ix]@[i].neighbors.slots()[a]
                    == usize::MAX ==> layers[ix]@[i].neighbors.slots()[b] == usize::MAX
        },
{
    let m = index.m as nat;
    let m0 = index.m0 as nat;
    assert forall|i: int| 0 <= i < zero.len() implies #[trigger] tidy(zero[i], m0) == (
    zero[i].slots().len() == m0 && forall|a: int, b: int|
        0 <= a < b < zero[i].slots().len() && #[trigger] zero[i].slots()[a] == usize::MAX
            ==> #[trigger] zero[i].slots()[b] == usize::MAX) by {
        lemma_tidy(zero[i], m0);
    }
    assert forall|ix: int, i: int|
        0 <= ix < layers.len() && 0 <= i < layers[ix]@.len() implies #[trigger] tidy(
        layers[ix]@[i].neighbors,
        m,
    ) == (layers[ix]@[i].neighbors.slots().len() == m && forall|a: int, b: int|
        0 <= a < b < layers[ix]@[i].neighbors.slots().len()
            && #[trigger] layers[ix]@[i].neighbors.slots()[a] == usize::MAX
            ==> #[trigger] layers[ix]@[i].neighbors.slots()[b] == usize::MAX) by {
        lemma_tidy(layers[ix]@[i].neighbors, m);
    }
    if fit_together(m, m0, zero, layers, index.features.len()) {
        assert forall|i: int| 0 <= i < zero.len() implies (#[trigger] zero[i]).slots().len()
            == m0 by {
            assert(tidy(zero[i], m0));
        }
        assert forall|i: int, a: int, b: int|
            #![trigger zero[i].slots()[a], zero[i].slots()[b]]
            0 <= i < zero.len() && 0 <= a < b < zero[i].slots().len() && zero[i].slots()[a]
                == usize::MAX implies zero[i].slots()[b] == usize::MAX by {
            assert(tidy(zero[i], m0));
        }
        assert forall|ix: int, i: int|
            0 <= ix < layers.len() && 0 <= i < layers[ix]@.len() implies (
        #[trigger] layers[ix]@[i]).neighbors.slots().len() == m by {
            assert(layers[ix].is_tidy(m));
            assert(tidy(layers[ix]@[i].neighbors, m));
        }
        assert forall|ix: int, i: int, a: int, b: int|
            #![trigger layers[ix]@[i].neighbors.slots()[a], layers[ix]@[i].neighbors.slots()[b]]
            0 <= ix < layers.len() && 0 <= i < layers[ix]@.len() && 0 <= a < b
                < layers[ix]@[i].neighbors.slots().len() && layers[ix]@[i].neighbors.slots()[a]
                == usize::MAX implies layers[ix]@[i].neighbors.slots()[b] == usize::MAX by {
            assert(layers[ix].is_tidy(m));
            assert(tidy(layers[ix]@[i].neighbors, m));
        }
    }
    if {
        &&& index.wf()
        &&& forall|i: int| 0 <= i < zero.len() ==> (#[trigger] zero[i]).slots().len() == index.m0
        &&& forall|i: int, a: int, b: int|
            #![trigger zero[i].slots()[a], zero[i].slots()[b]]
            0 <= i < zero.len() && 0 <= a < b < zero[i].slots().len() && zero[i].slots()[a]
                == usize::MAX ==> zero[i].slots()[b] == usize::MAX
        &&& forall|ix: int, i: int|
            0 <= ix < layers.len() && 0 <= i < layers[ix]@.len() ==> (
            #[trigger] layers[ix]@[i]).neighbors.slots().len() == index.m
        &&& forall|ix: int, i: int, a: int, b: int|
            #![trigger layers[ix]@[i].neighbors.slots()[a], layers[ix]@[i].neighbors.slots()[b]]
            0 <= ix < layers.len() && 0 <= i < layers[ix]@.len() && 0 <= a < b
                < layers[ix]@[i].neighbors.slots().len() && layers[ix]@[i].neighbors.slots()[a]
                == usize::MAX ==> layers[ix]@[i].neighbors.slots()[b] == usize::MAX
    } {
        assert forall|i: int| 0 <= i < zero.len() implies tidy(#[trigger] zero[i], m0) by {
            lemma_tidy(zero[i], m0);
        }
        assert forall|ix: int| 0 <= ix < layers.len() implies (#[trigger] layers[ix]).is_tidy(
            m,
        ) by {
            assert forall|i: int| 0 <= i < layers[ix]@.len() implies tidy(
                (#[trigger] layers[ix]@[i]).neighbors,
                m,
            ) by {
                lemma_tidy(layers[ix]@[i].neighbors, m);
            }
        }
    }
}

proof fn lemma_tidy<S: Slots>(list: S, capacity: nat)
    ensures
        tidy(list, capacity) <==> list.slots().len() == capacity && forall|a: int, b: int|
            0 <= a < b < list.slots().len() && #[trigger] list.slots()[a] == usize::MAX
                ==> #[trigger] list.slots()[b] == usize::MAX,
{
    crate::nodes::lemma_live_len(list.slots());
}

// ---------------------------------------------------------------------------
// Searches
// ---------------------------------------------------------------------------

/// A search without a filter accepts every id. A filter that can only give the answers
/// of `pass` is decided by it, and answers that may have been given are ones that the
/// filter can give.
pub proof fn law_filters_answer<F: Fn(usize) -> bool>(
    filter: F,
    pass: spec_fn(usize) -> bool,
    id: usize,
)
    ensures
        (anything())(id),
        (forall|id: usize| !call_ensures(filter, (id,), !#[trigger] pass(id))) ==> decides(
            filter,
            pass,
        ),
        decides(filter, pass) ==> !call_ensures(filter, (id,), !pass(id)),
        may_answer(filter, pass) && (call_ensures(filter, (id,), true) || call_ensures(
            filter,
            (id,),
            false,
        )) ==> call_ensures(filter, (id,), pass(id)),
{
    if forall|id: usize| !call_ensures(filter, (id,), !#[trigger] pass(id)) {
        assert forall|id: usize, answer: bool| #[trigger]
            call_ensures(filter, (id,), answer) implies answer == pass(id) by {
            if answer != pass(id) {
                assert(answer == !pass(id));
            }
        }
    }
}

/// A run that has not begun found nothing, waits for nothing and came upon nothing. One
/// that stands at a node found it, waits to expand it, and came upon its id alone.
pub proof fn law_runs_begin_at_a_node<U>(node: Neighbor<U>, id: usize, other: usize)
    ensures
        blank::<U>().candidates.len() == 0,
        blank::<U>().nearest.len() == 0,
        !blank::<U>().seen.contains(id),
        standing_at(node, id).candidates.len() == 1,
        standing_at(node, id).candidates[0] == node,
        standing_at(node, id).nearest.len() == 1,
        standing_at(node, id).nearest[0] == node,
        standing_at(node, id).seen.contains(other) <==> other == id,
{
}

impl<T, Met: Metric<T>> IndexView<Met, T> {
    /// The way down, one layer at a time.
    proof fn lemma_descended_once(self, query: T, run: Run<Met::Unit>, from: nat, to: nat)
        requires
            to < from,
        ensures
            self.descended(query, run, from, to) == lowered(
                self.graph.layers[to as int],
                self.passage(query, to + 1).depth_first(self.descended(query, run, from, to + 1)),
            ),
        decreases from,
    {
        let below = (from - 1) as nat;
        let next = lowered(
            self.graph.layers[from - 1],
            self.passage(query, from).depth_first(run),
        );
        if to < below {
            self.lemma_descended_once(query, next, below, to);
            assert(self.descended(query, run, from, to + 1) == self.descended(
                query,
                next,
                below,
                to + 1,
            ));
        } else {
            assert(self.descended(query, run, from, to + 1) == run);
            assert(self.descended(query, next, below, to) == next);
        }
    }

    /// What a search above the zero layer reports: exactly one node of the layer, at its
    /// true distance, that is no farther than any node it links to, whatever `ef` is. It
    /// is also no farther than the node where the search entered the layer.
    pub proof fn law_layer_searches_find_a_closest_node(
        self,
        query: T,
        ef: nat,
        other: nat,
        level: nat,
    )
        requires
            self.wf(),
            self.len() > 0,
            ef > 0,
            other > 0,
            0 < level <= self.top(),
        ensures
            ({
                let results = self.nearest_at(query, ef, level);
                let nodes = self.graph.layers[level - 1];
                let found = results[0];
                let node = nodes[found.index as int];
                &&& results == self.nearest_at(query, other, level)
                &&& results.len() == 1
                &&& found.index < nodes.len()
                &&& found.distance == self.metric.spec_distance(
                    query,
                    self.features[node.zero_node as int],
                )
                &&& forall|slot: int|
                    0 <= slot < node.links.len() ==> found.distance.key()
                        <= self.metric.spec_distance(
                        query,
                        self.features[nodes[(
                        #[trigger] node.links[slot]) as int].zero_node as int],
                    ).key()
                &&& found.distance.key() <= self.arrival(query, level).nearest[0].distance.key()
            }),
    {
        let beam = self.passage(query, level);
        let run = self.arrival(query, level);
        let after = self.upper_run(query, level);
        let nodes = self.graph.layers[level - 1];
        self.lemma_arrival(query, level, beam.accept, 1);
        self.lemma_layer(level);
        beam.lemma_depth_first_keeps(run);
        assert(beam.knows(after, after.nearest[0]));
        let found = after.nearest[0];
        let node = nodes[found.index as int];
        assert(self.graph.layer(level).links[found.index as int] == node.links);
        assert forall|slot: int| 0 <= slot < node.links.len() implies found.distance.key()
            <= self.metric.spec_distance(
            query,
            self.features[nodes[(#[trigger] node.links[slot]) as int].zero_node as int],
        ).key() by {
            let link = node.links[slot];
            assert(node.links.contains(link));
            self.law_descent_is_greedy(query, level, link);
            assert(self.graph.layer(level).links[found.index as int][slot] == link);
            assert(self.graph.layer(level).ids[link as int] == nodes[link as int].zero_node);
        }
    }

    /// Where a search enters a layer: at one node, having come upon that alone, at its
    /// true distance. In the top layer that is its first node. In any other it is the
    /// node that a search of the layer above reports, at the place that node leads to.
    pub proof fn law_searches_enter_where_the_layer_above_led(self, query: T, ef: nat, level: nat)
        requires
            self.wf(),
            self.len() > 0,
            ef > 0,
            level <= self.top(),
        ensures
            ({
                let run = self.arrival(query, level);
                let entered = run.nearest[0];
                let id = self.graph.layer(level).ids[entered.index as int];
                &&& run.nearest.len() == 1
                &&& run.candidates == run.nearest
                &&& entered.index < self.graph.layer(level).ids.len()
                &&& entered.distance == self.metric.spec_distance(query, self.features[id as int])
                &&& forall|other: usize| run.seen.contains(other) <==> other == id
                &&& level == self.top() ==> entered.index == 0
                &&& level < self.top() ==> {
                    let above = self.nearest_at(query, ef, level + 1)[0];
                    let node = self.graph.layers[level as int][above.index as int];
                    &&& entered.index == node.next_node
                    &&& entered.distance == above.distance
                    &&& id == node.zero_node
                }
            }),
    {
        let run = self.arrival(query, level);
        let beam = self.beam(query, level, alive(Set::empty()), 1);
        self.lemma_arrival(query, level, beam.accept, 1);
        self.lemma_layer(level);
        assert(beam.knows(run, run.nearest[0]));
        if level < self.top() {
            self.lemma_descended_once(query, self.start(query), self.top(), level);
            let above = self.upper_run(query, level + 1);
            let passage = self.passage(query, level + 1);
            assert(run == lowered(self.graph.layers[level as int], above));
            self.lemma_arrival(query, level + 1, passage.accept, 1);
            self.lemma_layer(level + 1);
            passage.lemma_depth_first_keeps(self.arrival(query, level + 1));
            assert(passage.knows(above, above.nearest[0]));
            let node = self.graph.layers[level as int][above.nearest[0].index as int];
            assert(self.graph.layer_formed(level as int, self.m as nat));
            assert(self.graph.anchored(level as int, node));
        } else {
            assert(run == self.start(query));
            self.lemma_start(query, beam.accept, 1);
            if level > 0 {
                assert(self.graph.layers.last() == self.graph.layers[level - 1]);
            }
        }
    }

    /// A search of the zero layer is a best-first search from where it enters: over the
    /// links of the zero layer, by the distances to the query, for `ef` nodes that are
    /// not soft-deleted and pass the filter. The node it enters at counts if it is one
    /// of those. The searcher is left as that search left it.
    pub proof fn law_searches_are_best_first(
        self,
        query: T,
        ef: nat,
        pass: spec_fn(usize) -> bool,
        before: Run<Met::Unit>,
        after: Run<Met::Unit>,
    )
        requires
            self.wf(),
            self.len() > 0,
            ef > 0,
        ensures
            ({
                let entered = self.arrival(query, 0).nearest[0];
                let beam = Beam {
                    layer: LayerView {
                        links: self.graph.zero,
                        ids: Seq::new(self.graph.zero.len(), |i: int| i as usize),
                    },
                    distance: |id: usize|
                        self.metric.spec_distance(query, self.features[id as int]),
                    accept: |id: usize| !self.dead.contains(id) && pass(id),
                    width: ef,
                };
                let start = Run {
                    candidates: seq![entered],
                    nearest: if !self.dead.contains(entered.index) && pass(entered.index) {
                        seq![entered]
                    } else {
                        Seq::empty()
                    },
                    seen: set![entered.index],
                };
                &&& self.nearest(query, ef, pass) == beam.best_first(start).nearest
                &&& self.zero_searched(query, ef, pass, before, after) <==> same_but_order(
                    after,
                    beam.best_first(start),
                )
            }),
    {
        let entered = self.arrival(query, 0).nearest[0];
        let beam = Beam {
            layer: LayerView {
                links: self.graph.zero,
                ids: Seq::new(self.graph.zero.len(), |i: int| i as usize),
            },
            distance: |id: usize| self.metric.spec_distance(query, self.features[id as int]),
            accept: |id: usize| !self.dead.contains(id) && pass(id),
            width: ef,
        };
        let own = self.zero_beam(query, ef, pass);
        let arrival = self.arrival(query, 0);
        assert(own.distance =~= beam.distance);
        assert(own.accept =~= beam.accept);
        assert(own.layer.ids =~= beam.layer.ids);
        assert(own == beam);
        self.lemma_arrival(query, 0, own.accept, ef);
        self.lemma_layer(0);
        self.law_searches_enter_where_the_layer_above_led(query, ef, 0);
        own.lemma_scrub(arrival);
        assert(own.knows(arrival, entered));
        assert(arrival.nearest =~= seq![entered]);
        assert(arrival.seen =~= set![entered.index]);
        assert(own.scrub(arrival) =~= Run {
            candidates: seq![entered],
            nearest: if !self.dead.contains(entered.index) && pass(entered.index) {
                seq![entered]
            } else {
                Seq::empty()
            },
            seen: set![entered.index],
        });
    }

    /// A search above the zero layer is a depth-first search from where it enters: over
    /// the links of that layer, by the distances to the query, for one node of any kind.
    pub proof fn law_layer_searches_are_depth_first(
        self,
        query: T,
        ef: nat,
        level: nat,
        before: Run<Met::Unit>,
        after: Run<Met::Unit>,
    )
        requires
            self.wf(),
            self.len() > 0,
            ef > 0,
            0 < level <= self.top(),
        ensures
            ({
                let entered = self.arrival(query, level).nearest[0];
                let nodes = self.graph.layers[level - 1];
                let beam = Beam {
                    layer: LayerView {
                        links: Seq::new(nodes.len(), |i: int| nodes[i].links),
                        ids: Seq::new(nodes.len(), |i: int| nodes[i].zero_node),
                    },
                    distance: |id: usize|
                        self.metric.spec_distance(query, self.features[id as int]),
                    accept: |id: usize| true,
                    width: 1,
                };
                let start = Run {
                    candidates: seq![entered],
                    nearest: seq![entered],
                    seen: set![nodes[entered.index as int].zero_node],
                };
                &&& self.nearest_at(query, ef, level) == beam.depth_first(start).nearest
                &&& self.searched_at(query, ef, level, before, after) <==> after
                    == beam.depth_first(start)
            }),
    {
        let entered = self.arrival(query, level).nearest[0];
        let nodes = self.graph.layers[level - 1];
        let beam = Beam {
            layer: LayerView {
                links: Seq::new(nodes.len(), |i: int| nodes[i].links),
                ids: Seq::new(nodes.len(), |i: int| nodes[i].zero_node),
            },
            distance: |id: usize| self.metric.spec_distance(query, self.features[id as int]),
            accept: |id: usize| true,
            width: 1,
        };
        let own = self.passage(query, level);
        let arrival = self.arrival(query, level);
        assert(own.distance =~= beam.distance);
        assert(own.accept =~= beam.accept);
        assert(own.layer.ids =~= beam.layer.ids);
        assert(own.layer.links =~= beam.layer.links);
        assert(own == beam);
        self.law_searches_enter_where_the_layer_above_led(query, ef, level);
        assert(arrival =~= Run {
            candidates: seq![entered],
            nearest: seq![entered],
            seen: set![nodes[entered.index as int].zero_node],
        }) by {
            assert(arrival.nearest =~= seq![entered]);
            assert(arrival.seen =~= set![nodes[entered.index as int].zero_node]);
        }
    }

    /// A search with nothing to look for leaves the searcher alone and finds nothing.
    /// Any other leaves what it reports as what the searcher found, and a search of level
    /// zero is a search of the zero layer.
    pub proof fn law_searchers_hold_what_was_found(
        self,
        query: T,
        ef: nat,
        level: nat,
        pass: spec_fn(usize) -> bool,
        before: Run<Met::Unit>,
        after: Run<Met::Unit>,
    )
        ensures
            ef == 0 || self.features.len() == 0 ==> (self.zero_searched(
                query,
                ef,
                pass,
                before,
                after,
            ) <==> after == before) && self.nearest(query, ef, pass).len() == 0,
            ef == 0 || self.features.len() == 0 || level > self.graph.layers.len() ==> (
            self.searched_at(query, ef, level, before, after) <==> after == before)
                && self.nearest_at(query, ef, level).len() == 0,
            ef > 0 && self.features.len() > 0 && self.zero_searched(
                query,
                ef,
                pass,
                before,
                after,
            ) ==> after.nearest == self.nearest(query, ef, pass),
            ef > 0 && self.features.len() > 0 && level <= self.graph.layers.len()
                && self.searched_at(query, ef, level, before, after) ==> after.nearest
                == self.nearest_at(query, ef, level),
            self.nearest_at(query, ef, 0) == self.nearest(query, ef, |id: usize| true),
            self.searched_at(query, ef, 0, before, after) <==> self.zero_searched(
                query,
                ef,
                |id: usize| true,
                before,
                after,
            ),
    {
        assert(anything() =~= |id: usize| true);
    }

    /// What a search reports: live nodes that pass the filter, each at its true distance,
    /// closest first, none of them twice, and no more than `ef`.
    pub proof fn law_results_are_as_promised(
        self,
        query: T,
        ef: nat,
        pass: spec_fn(usize) -> bool,
    )
        requires
            self.searchable(),
        ensures
            ({
                let results = self.nearest(query, ef, pass);
                &&& results.len() <= ef
                &&& results.len() <= self.graph.zero.len()
                &&& forall|i: int|
                    0 <= i < results.len() ==> {
                        let result = #[trigger] results[i];
                        &&& result.index < self.graph.zero.len()
                        &&& !self.dead.contains(result.index)
                        &&& pass(result.index)
                        &&& result.distance == self.metric.spec_distance(
                            query,
                            self.features[result.index as int],
                        )
                    }
                &&& forall|i: int, j: int|
                    0 <= i < j < results.len() ==> (#[trigger] results[i]).index != (
                    #[trigger] results[j]).index && results[i].distance.key()
                        <= results[j].distance.key()
            }),
    {
        let results = self.nearest(query, ef, pass);
        self.law_results_ascend(query, ef, pass);
        self.law_results_are_exact(query, ef, pass);
        self.law_results_are_distinct(query, ef, pass);
        self.law_results_are_admissible(query, ef, pass);
        self.law_results_are_bounded(query, ef, pass);
        let indices = Seq::new(results.len(), |i: int| results[i].index as int);
        assert(indices.no_duplicates()) by {
            assert forall|i: int, j: int| 0 <= i < indices.len() && 0 <= j < indices.len() && i
                != j implies indices[i] != indices[j] by {
                assert(results[i].index != results[j].index || i == j);
            }
        }
        indices.unique_seq_to_set();
        vstd::set_lib::lemma_int_range(0, self.len() as int);
        let all = vstd::set_lib::set_int_range(0, self.len() as int);
        assert(indices.to_set().subset_of(all)) by {
            assert forall|x: int| indices.to_set().contains(x) implies all.contains(x) by {
                let i = indices.index_of(x);
                assert(results[i].index < self.len());
            }
        }
        vstd::set_lib::lemma_len_subset(indices.to_set(), all);
    }
}

// ---------------------------------------------------------------------------
// Insertions
// ---------------------------------------------------------------------------

/// A node with room takes in what it is offered behind the links that it has. One without
/// chooses among its links and the newcomer.
pub proof fn law_offers_are_taken_while_there_is_room<U: Unit>(
    near: spec_fn(usize, usize) -> U,
    capacity: nat,
    target: usize,
    links: Seq<usize>,
    newcomer: usize,
)
    ensures
        links.len() < capacity ==> adopted(near, capacity, target, links, newcomer) == links.push(
            newcomer,
        ),
        links.len() >= capacity ==> adopted(near, capacity, target, links, newcomer) == selected(
            near,
            capacity,
            target,
            links.push(newcomer),
        ),
{
}

/// What layers on top hold: the newcomer alone, without links, which leads to itself in
/// the layer below. The layers that were there stay as they are.
proof fn lemma_raised_layers(layers: Seq<Seq<NodeView>>, id: usize, level: nat)
    ensures
        ({
            let after = raised(layers, id, level);
            &&& after.len() == if level <= layers.len() {
                layers.len()
            } else {
                level
            }
            &&& forall|ix: int| 0 <= ix < layers.len() ==> #[trigger] after[ix] == layers[ix]
            &&& forall|ix: int|
                layers.len() <= ix < level ==> {
                    let nodes = #[trigger] after[ix];
                    &&& nodes.len() == 1
                    &&& nodes[0].zero_node == id
                    &&& nodes[0].links.len() == 0
                    &&& nodes[0].next_node == if ix == 0 {
                        id
                    } else if ix == layers.len() {
                        (layers.last().len() - 1) as usize
                    } else {
                        0
                    }
                }
        }),
    decreases level - layers.len(),
{
    if layers.len() < level {
        let node = NodeView {
            zero_node: id,
            next_node: if layers.len() == 0 {
                id
            } else {
                (layers.last().len() - 1) as usize
            },
            links: Seq::empty(),
        };
        let more = layers.push(seq![node]);
        let after = raised(layers, id, level);
        lemma_raised_layers(more, id, level);
        assert(after == raised(more, id, level));
        assert forall|ix: int| 0 <= ix < layers.len() implies #[trigger] after[ix]
            == layers[ix] by {
            assert(more[ix] == layers[ix]);
        }
        assert forall|ix: int| layers.len() <= ix < level implies {
            let nodes = #[trigger] after[ix];
            &&& nodes.len() == 1
            &&& nodes[0].zero_node == id
            &&& nodes[0].links.len() == 0
            &&& nodes[0].next_node == if ix == 0 {
                id
            } else if ix == layers.len() {
                (layers.last().len() - 1) as usize
            } else {
                0
            }
        } by {
            if ix == layers.len() {
                assert(more[ix] == seq![node]);
                assert(after[ix] == more[ix]);
            } else if ix == more.len() {
                assert(more.last() == seq![node]);
            }
        }
    }
}

impl<T, Met: Metric<T>> IndexView<Met, T> {
    /// The first insertion makes a node without links, which is in as many layers as its
    /// level says.
    pub proof fn law_first_insertion_stands_alone(self, newcomer: T, level: nat, ix: int)
        requires
            self.wf(),
            self.len() == 0,
        ensures
            ({
                let after = self.inserted(newcomer, level).graph;
                &&& after.zero.len() == 1
                &&& after.zero[0].len() == 0
                &&& after.layers.len() == level
                &&& 0 <= ix < level ==> {
                    &&& after.layers[ix].len() == 1
                    &&& after.layers[ix][0].zero_node == 0
                    &&& after.layers[ix][0].next_node == 0
                    &&& after.layers[ix][0].links.len() == 0
                }
            }),
    {
        lemma_raised_layers(Seq::empty(), 0, level);
    }

    /// The search that an insertion makes in a layer that its newcomer joins is a
    /// depth-first search by the distances to the newcomer, for as many nodes as the
    /// parameters say, which in the zero layer must not be soft-deleted. It starts at one
    /// node: in the highest of those layers where a search for the newcomer enters it,
    /// and in any other at the closest node found in the layer above.
    pub proof fn law_insertions_search_every_layer(self, newcomer: T, height: nat, level: nat)
        requires
            self.wf(),
            self.len() > 0,
            level <= height <= self.top(),
        ensures
            ({
                let layer = self.graph.layer(level);
                let found = self.insertion_found(newcomer, height, level);
                let beam = Beam {
                    layer,
                    distance: |id: usize|
                        self.metric.spec_distance(newcomer, self.features[id as int]),
                    accept: |id: usize| level > 0 || !self.dead.contains(id),
                    width: self.params.spec_ef_construction() as nat,
                };
                let index = if level == height {
                    self.arrival(newcomer, height).nearest[0].index
                } else {
                    self.graph.layers[level as int][self.insertion_found(
                        newcomer,
                        height,
                        level + 1,
                    )[0].index as int].next_node
                };
                let id = layer.ids[index as int];
                let entered = Neighbor {
                    index,
                    distance: self.metric.spec_distance(newcomer, self.features[id as int]),
                };
                let start = Run {
                    candidates: seq![entered],
                    nearest: seq![entered],
                    seen: set![id],
                };
                &&& found == beam.depth_first(start).nearest
                &&& self.insertion_run(newcomer, height, level) == beam.depth_first(start)
                &&& found.len() > 0
                &&& self.params.spec_ef_construction() > 0 ==> found.len()
                    <= self.params.spec_ef_construction()
                &&& forall|i: int|
                    0 <= i < found.len() ==> {
                        let near = #[trigger] found[i];
                        &&& near.index < layer.ids.len()
                        &&& near.distance == self.metric.spec_distance(
                            newcomer,
                            self.features[layer.ids[near.index as int] as int],
                        )
                        &&& level > 0 || !self.dead.contains(near.index) || near.index == index
                    }
                &&& forall|i: int, j: int|
                    0 <= i < j < found.len() ==> (#[trigger] found[i]).index != (
                    #[trigger] found[j]).index && found[i].distance.key()
                        <= found[j].distance.key()
            }),
    {
        let layer = self.graph.layer(level);
        let own = self.insertion_beam(newcomer, level);
        let beam = Beam {
            layer,
            distance: |id: usize| self.metric.spec_distance(newcomer, self.features[id as int]),
            accept: |id: usize| level > 0 || !self.dead.contains(id),
            width: self.params.spec_ef_construction() as nat,
        };
        let run = self.insertion_arrival(newcomer, height, level);
        assert(own.distance =~= beam.distance);
        assert(own.accept =~= beam.accept);
        assert(own == beam);
        self.lemma_insertion_arrival(newcomer, height, level);
        self.lemma_layer(level);
        let entered = run.nearest[0];
        let id = layer.ids[entered.index as int];
        assert(own.knows(run, entered));
        if level == height {
            self.law_searches_enter_where_the_layer_above_led(newcomer, 1, level);
        } else {
            let above = self.insertion_found(newcomer, height, level + 1);
            self.lemma_insertion_found(newcomer, height, level + 1);
            let node = self.graph.layers[level as int][above[0].index as int];
            assert(self.graph.layer_formed(level as int, self.m as nat));
            assert(self.graph.layer(level + 1).ids.len() == self.graph.layers[level as int].len());
            assert(self.graph.anchored(level as int, node));
        }
        let start = Run { candidates: seq![entered], nearest: seq![entered], seen: set![id] };
        assert(run.candidates =~= seq![entered]);
        assert(run.nearest =~= seq![entered]);
        assert(run.seen =~= set![id]);
        assert(run =~= start);
        own.lemma_depth_first_keeps(run);
        assert(own.screened_but(run, id));
        own.lemma_depth_first_screened(run, id);
        let after = own.depth_first(run);
        assert forall|i: int| 0 <= i < after.nearest.len() implies {
            let near = #[trigger] after.nearest[i];
            &&& near.index < layer.ids.len()
            &&& near.distance == self.metric.spec_distance(
                newcomer,
                self.features[layer.ids[near.index as int] as int],
            )
            &&& level > 0 || !self.dead.contains(near.index) || near.index == entered.index
        } by {
            assert(own.knows(after, after.nearest[i]));
            assert((own.accept)(layer.ids[after.nearest[i].index as int]) || layer.ids[
                after.nearest[i].index as int
            ] == id);
        }
    }

    /// What an insertion makes of the zero layer. The newcomer is put behind the last
    /// node and links to the closest nodes that were found, as many as it has slots. A
    /// node that it does not link to keeps its links, one with room gets a link to it
    /// behind those it has, and one without selects among those and the newcomer by the
    /// distances between their features.
    pub proof fn law_insertions_rewire_the_zero_layer(self, newcomer: T, level: nat, node: int)
        requires
            self.wf(),
            0 < self.len() < usize::MAX,
            0 <= node < self.len(),
        ensures
            ({
                let before = self.graph.zero;
                let after = self.inserted(newcomer, level).graph.zero;
                let fresh = before.len() as usize;
                let found = self.insertion_found(
                    newcomer,
                    vstd::math::min(level as int, self.graph.layers.len() as int) as nat,
                    0,
                );
                let targets = after[fresh as int];
                let near = |a: usize, b: usize|
                    self.metric.spec_distance(
                        if a < before.len() {
                            self.features[a as int]
                        } else {
                            newcomer
                        },
                        if b < before.len() {
                            self.features[b as int]
                        } else {
                            newcomer
                        },
                    );
                &&& after.len() == before.len() + 1
                &&& targets.len() == vstd::math::min(found.len() as int, self.m0 as int)
                &&& forall|i: int| 0 <= i < targets.len() ==> #[trigger] targets[i] == found[i].index
                &&& !targets.contains(node as usize) ==> after[node] == before[node]
                &&& targets.contains(node as usize) && before[node].len() < self.m0 ==> after[node]
                    == before[node].push(fresh)
                &&& targets.contains(node as usize) && before[node].len() == self.m0 ==> after[node]
                    == selected(near, self.m0 as nat, node as usize, before[node].push(fresh))
            }),
    {
        let height = self.height(level);
        let before = self.graph.zero;
        let fresh = before.len() as usize;
        let found = self.insertion_found(newcomer, height, 0);
        let targets = chosen(found, self.m0 as nat);
        let own = self.between(newcomer, 0);
        let near = |a: usize, b: usize|
            self.metric.spec_distance(
                if a < before.len() {
                    self.features[a as int]
                } else {
                    newcomer
                },
                if b < before.len() {
                    self.features[b as int]
                } else {
                    newcomer
                },
            );
        assert(own =~= near);
        self.lemma_insertion_found(newcomer, height, 0);
        lemma_chosen(found, self.m0 as nat, before.len());
        self.lemma_joined_zero(newcomer, height);
        let more = offered(own, self.m0 as nat, before, targets);
        assert(self.inserted(newcomer, level).graph.zero == more.push(targets));
        if targets.contains(node as usize) {
            lemma_offered_target(own, self.m0 as nat, before, targets, node);
        } else {
            lemma_offered_others(own, self.m0 as nat, before, targets, node);
        }
    }

    /// What an insertion makes of the layers above the zero layer. Those up to its level
    /// get the newcomer behind their last node and are rewired as the zero layer is,
    /// where every node keeps its id and its place below. Those above its level stay as
    /// they are. If there were not enough, new ones hold the newcomer alone.
    pub proof fn law_insertions_rewire_the_layers(
        self,
        newcomer: T,
        level: nat,
        ix: int,
        node: int,
    )
        requires
            self.wf(),
            0 < self.len() < usize::MAX,
        ensures
            ({
                let layers = self.inserted(newcomer, level).graph.layers;
                let top = self.graph.layers.len();
                let before = self.graph.layers[ix];
                let after = layers[ix];
                let fresh = before.len() as usize;
                let found = self.insertion_found(
                    newcomer,
                    vstd::math::min(level as int, top as int) as nat,
                    (ix + 1) as nat,
                );
                let near = |a: usize, b: usize|
                    self.metric.spec_distance(
                        if a < before.len() {
                            self.features[before[a as int].zero_node as int]
                        } else {
                            newcomer
                        },
                        if b < before.len() {
                            self.features[before[b as int].zero_node as int]
                        } else {
                            newcomer
                        },
                    );
                &&& layers.len() == vstd::math::max(level as int, top as int)
                &&& level <= ix < top ==> after == before
                &&& top <= ix < level && 0 <= ix ==> {
                    &&& after.len() == 1
                    &&& after[0].zero_node == self.graph.zero.len()
                    &&& after[0].links.len() == 0
                    &&& ix == 0 ==> after[0].next_node == self.graph.zero.len()
                    &&& ix > 0 && ix == top ==> after[0].next_node == self.graph.layers[ix
                        - 1].len()
                    &&& ix > top ==> after[0].next_node == 0
                }
                &&& 0 <= ix < top && ix < level ==> {
                    let targets = after[fresh as int].links;
                    &&& after.len() == before.len() + 1
                    &&& after[fresh as int].zero_node == self.graph.zero.len()
                    &&& ix == 0 ==> after[fresh as int].next_node == self.graph.zero.len()
                    &&& ix > 0 ==> after[fresh as int].next_node == self.graph.layers[ix - 1].len()
                    &&& targets.len() == vstd::math::min(found.len() as int, self.m as int)
                    &&& forall|i: int|
                        0 <= i < targets.len() ==> #[trigger] targets[i] == found[i].index
                    &&& 0 <= node < before.len() ==> {
                        &&& after[node].zero_node == before[node].zero_node
                        &&& after[node].next_node == before[node].next_node
                        &&& !targets.contains(node as usize) ==> after[node].links
                            == before[node].links
                        &&& targets.contains(node as usize) && before[node].links.len() < self.m
                            ==> after[node].links == before[node].links.push(fresh)
                        &&& targets.contains(node as usize) && before[node].links.len() == self.m
                            ==> after[node].links == selected(
                            near,
                            self.m as nat,
                            node as usize,
                            before[node].links.push(fresh),
                        )
                    }
                }
            }),
    {
        let height = self.height(level);
        let top = self.graph.layers.len();
        let joined = Seq::new(
            self.top(),
            |ix: int|
                if ix < height {
                    self.joined_upper(newcomer, height, ix)
                } else {
                    self.graph.layers[ix]
                },
        );
        lemma_raised_layers(joined, self.len() as usize, level);
        if top > 0 && top < level {
            self.lemma_joined_upper(newcomer, height, top - 1);
            assert(joined.last() == self.joined_upper(newcomer, height, top - 1));
        }
        if 0 <= ix < top && ix < level {
            let before = self.graph.layers[ix];
            let links = upper_layer(before).links;
            let found = self.insertion_found(newcomer, height, (ix + 1) as nat);
            let targets = chosen(found, self.m as nat);
            let own = self.between(newcomer, (ix + 1) as nat);
            let near = |a: usize, b: usize|
                self.metric.spec_distance(
                    if a < before.len() {
                        self.features[before[a as int].zero_node as int]
                    } else {
                        newcomer
                    },
                    if b < before.len() {
                        self.features[before[b as int].zero_node as int]
                    } else {
                        newcomer
                    },
                );
            assert(own =~= near);
            assert(self.graph.layer_formed(ix, self.m as nat));
            self.lemma_insertion_found(newcomer, height, (ix + 1) as nat);
            lemma_chosen(found, self.m as nat, before.len());
            self.lemma_joined_upper(newcomer, height, ix);
            if ix > 0 {
                assert(self.graph.layer_formed(ix - 1, self.m as nat));
            }
            let more = offered(own, self.m as nat, links, targets);
            let after = self.joined_upper(newcomer, height, ix);
            assert(joined[ix] == after);
            assert(after == relinked(before, more).push(after.last()));
            if 0 <= node < before.len() {
                assert(links[node] == before[node].links);
                assert(after[node].links == more[node]);
                if targets.contains(node as usize) {
                    lemma_offered_target(own, self.m as nat, links, targets, node);
                } else {
                    lemma_offered_others(own, self.m as nat, links, targets, node);
                }
            }
        }
    }
}

impl<T, Met: Metric<T>> IndexView<Met, T> {
    /// A newcomer that lies apart is not hidden by a cluster. A node that it links to in
    /// the zero layer links back if it is closer to the newcomer than the newcomer is to
    /// anything the node links to. It does not only if it ends up full of links that are
    /// no farther, each closer to the node than to any ahead of it.
    pub proof fn law_lone_newcomers_are_linked_to(self, newcomer: T, level: nat, node: usize)
        requires
            self.wf(),
            0 < self.len() < usize::MAX,
            node < self.len(),
            self.inserted(newcomer, level).graph.zero[self.len() as int].contains(node),
            forall|slot: int|
                0 <= slot < self.graph.zero[node as int].len() ==> self.metric.spec_distance(
                    self.features[node as int],
                    newcomer,
                ).key() < self.metric.spec_distance(
                    newcomer,
                    self.features[(#[trigger] self.graph.zero[node as int][slot]) as int],
                ).key(),
        ensures
            ({
                let links = self.inserted(newcomer, level).graph.zero[node as int];
                let own = self.features[node as int];
                links.contains(self.len() as usize) || links.len() == self.m0 && (forall|i: int|
                    0 <= i < links.len() ==> (#[trigger] links[i]) < self.len()
                        && self.metric.spec_distance(own, self.features[links[i] as int]).key()
                        <= self.metric.spec_distance(own, newcomer).key()) && (forall|
                    i: int,
                    j: int,
                |
                    0 <= i < j < links.len() ==> self.metric.spec_distance(
                        own,
                        self.features[(#[trigger] links[j]) as int],
                    ).key() < self.metric.spec_distance(
                        self.features[links[j] as int],
                        self.features[(#[trigger] links[i]) as int],
                    ).key())
            }),
    {
        let before = self.graph.zero;
        let fresh = before.len() as usize;
        let old = before[node as int];
        let candidates = old.push(fresh);
        let links = self.inserted(newcomer, level).graph.zero[node as int];
        let near = |a: usize, b: usize|
            self.metric.spec_distance(
                if a < before.len() {
                    self.features[a as int]
                } else {
                    newcomer
                },
                if b < before.len() {
                    self.features[b as int]
                } else {
                    newcomer
                },
            );
        self.law_insertions_rewire_the_zero_layer(newcomer, level, node as int);
        if old.len() < self.m0 {
            assert(links.last() == fresh);
        } else {
            assert(links == selected(near, self.m0 as nat, node, candidates));
            assert(candidates.last() == fresh);
            assert(candidates.contains(fresh));
            assert forall|i: int|
                0 <= i < candidates.len() && #[trigger] candidates[i] != fresh implies near(
                node,
                fresh,
            ).key() < near(fresh, candidates[i]).key() by {
                assert(before[node as int][i] < before.len());
            }
            law_lone_candidates_keep_their_links(near, self.m0 as nat, node, candidates, fresh);
            let count = law_selection_covers_every_direction(
                near,
                self.m0 as nat,
                node,
                candidates,
            );
            if !links.contains(fresh) {
                assert forall|i: int| 0 <= i < links.len() implies (#[trigger] links[i])
                    < self.len() && near(node, links[i]).key() <= near(node, fresh).key() by {
                    assert(candidates.contains(links[i]));
                    let k = candidates.index_of(links[i]);
                    assert(links.contains(links[i]));
                    assert(before[node as int][k] < before.len());
                    if i > 0 {
                        assert(near(node, links[0]).key() <= near(node, links[i]).key());
                    } else if links.len() > 1 {
                        assert(near(node, links[0]).key() <= near(node, links[1]).key());
                    } else {
                        let c = candidates.index_of(fresh);
                        assert(candidates[c] == fresh);
                        if count == 0 {
                            assert(near(node, links[0]).key() <= near(node, candidates[c]).key());
                        }
                    }
                }
            }
        }
    }
}

/// What a newcomer links to.
proof fn lemma_chosen<U>(found: Seq<Neighbor<U>>, capacity: nat, count: nat)
    requires
        forall|i: int| 0 <= i < found.len() ==> (#[trigger] found[i]).index < count,
        forall|i: int, j: int|
            0 <= i < j < found.len() ==> (#[trigger] found[i]).index != (
            #[trigger] found[j]).index,
    ensures
        chosen(found, capacity).no_duplicates(),
        forall|i: int|
            0 <= i < chosen(found, capacity).len() ==> (#[trigger] chosen(found, capacity)[i])
                < count,
{
    let targets = chosen(found, capacity);
    assert forall|i: int, j: int| 0 <= i < targets.len() && 0 <= j < targets.len() && i
        != j implies targets[i] != targets[j] by {
        assert(found[i].index != found[j].index || i == j);
    }
    assert forall|i: int| 0 <= i < targets.len() implies (#[trigger] targets[i]) < count by {
        assert(found[i].index == targets[i]);
    }
}

} // verus!
