//! Whether parts make up the graph of an index.

use crate::join::within;
use crate::model::GraphView;
use crate::nodes::{
    lemma_live_len, links_of, live_len, live_neighbors, nodes_of, tidy, Layer, Node, NodeView,
    Slots, EMPTY,
};
use vstd::prelude::*;

verus! {

/// What layers hold.
pub open spec fn layers_of<U: Slots>(layers: Seq<Vec<Node<U>>>) -> Seq<Seq<NodeView>> {
    Seq::new(layers.len(), |ix: int| nodes_of(layers[ix]@))
}

/// The graph that neighbor lists and nodes make up.
pub open spec fn graph_of<Z: Slots, U: Slots>(
    zero: Seq<Z>,
    layers: Seq<Vec<Node<U>>>,
) -> GraphView {
    GraphView { zero: links_of(zero), layers: layers_of(layers) }
}

/// Whether neighbor lists and nodes make up the graph of an index with so many
/// features.
pub open spec fn fit_together<Z: Slots, U: Slots>(
    m: nat,
    m0: nat,
    zero: Seq<Z>,
    layers: Seq<Vec<Node<U>>>,
    feature_count: nat,
) -> bool {
    &&& graph_of(zero, layers).well_formed(m, m0)
    &&& zero.len() <= feature_count
    &&& forall|i: int| 0 <= i < zero.len() ==> tidy(#[trigger] zero[i], m0)
    &&& forall|ix: int| 0 <= ix < layers.len() ==> (#[trigger] layers[ix]).is_tidy(m)
}

/// Checks the links of a layer with so many nodes.
pub(crate) fn check_links<L: Layer>(layer: &L, count: usize, capacity: usize) -> (fits: bool)
    requires
        layer.layer().links.len() == count,
    ensures
        fits == within(layer.layer().links, capacity as nat, count as nat),
{
    let ghost all = layer.layer().links;
    let mut node: usize = 0;
    while node < count
        invariant
            all == layer.layer().links,
            all.len() == count,
            node <= count,
            within(all.take(node as int), capacity as nat, count as nat),
        decreases count - node,
    {
        let links = layer.links(node);
        assert(all[node as int] == links@);
        if links.len() > capacity {
            return false;
        }
        let mut slot: usize = 0;
        while slot < links.len()
            invariant
                all == layer.layer().links,
                all.len() == count,
                node < count,
                all[node as int] == links@,
                slot <= links@.len(),
                forall|i: int| 0 <= i < slot ==> (#[trigger] links@[i]) < count,
            decreases links@.len() - slot,
        {
            if links[slot] >= count {
                assert(all[node as int][slot as int] >= count);
                return false;
            }
            slot += 1;
        }
        proof {
            let some = all.take(node as int);
            let more = all.take(node + 1);
            assert forall|n: int, i: int|
                0 <= n < more.len() && 0 <= i < more[n].len() implies (#[trigger] more[n][i])
                < count by {
                if n < node {
                    assert(more[n] == some[n]);
                } else {
                    assert(more[n] == links@);
                }
            }
            assert forall|n: int| 0 <= n < more.len() implies (#[trigger] more[n]).len()
                <= capacity by {
                if n < node {
                    assert(more[n] == some[n]);
                }
            }
        }
        node += 1;
    }
    assert(all.take(count as int) =~= all);
    true
}

/// Checks a layer above the zero layer.
pub(crate) fn check_layer<Z: Slots, U: Slots>(
    zero: &Vec<Z>,
    layers: &Vec<Vec<Node<U>>>,
    ix: usize,
    m: usize,
) -> (fits: bool)
    requires
        ix < layers@.len(),
    ensures
        fits == graph_of(zero@, layers@).layer_formed(ix as int, m as nat),
{
    let ghost graph = graph_of(zero@, layers@);
    let nodes = &layers[ix];
    let ghost views = graph.layers[ix as int];
    assert(views == nodes_of(nodes@));
    let count: usize = nodes.len();
    if count == 0 || count > zero.len() || !check_links(nodes, count, m) {
        return false;
    }
    let mut i: usize = 0;
    while i < count
        invariant
            ix < layers@.len(),
            graph == graph_of(zero@, layers@),
            *nodes == layers@[ix as int],
            views == nodes_of(nodes@),
            views == graph.layers[ix as int],
            count == nodes@.len(),
            i <= count,
            forall|j: int|
                0 <= j < i ==> (#[trigger] views[j]).zero_node < graph.zero.len()
                    && graph.anchored(ix as int, views[j]),
        decreases count - i,
    {
        let node = &nodes[i];
        let anchored = if ix == 0 {
            node.next_node == node.zero_node
        } else {
            node.next_node < layers[ix - 1].len() && layers[ix - 1][node.next_node].zero_node
                == node.zero_node
        };
        proof {
            if ix > 0 {
                assert(graph.layers[ix - 1] == nodes_of(layers@[ix - 1]@));
            }
            assert(views[i as int] == node@);
            assert(anchored == graph.anchored(ix as int, views[i as int]));
        }
        if !anchored || node.zero_node >= zero.len() {
            return false;
        }
        i += 1;
    }
    true
}

/// Checks that a list has its slots, and nothing behind the first empty one.
fn check_list<S: Slots>(list: &S, capacity: usize) -> (fits: bool)
    ensures
        fits == tidy(*list, capacity as nat),
{
    let slots = list.as_slots();
    if slots.len() != capacity {
        return false;
    }
    let mut i: usize = live_neighbors(slots).len();
    proof {
        lemma_live_len(slots@);
    }
    while i < slots.len()
        invariant
            slots@ == list.slots(),
            live_len(slots@) <= i <= slots@.len(),
            forall|j: int| live_len(slots@) <= j < i ==> #[trigger] slots@[j] == EMPTY,
        decreases slots@.len() - i,
    {
        if slots[i] != EMPTY {
            return false;
        }
        i += 1;
    }
    true
}

/// Checks the neighbor lists of the zero layer.
pub(crate) fn check_zero_lists<Z: Slots>(zero: &Vec<Z>, capacity: usize) -> (fits: bool)
    ensures
        fits == zero.is_tidy(capacity as nat),
{
    let mut i: usize = 0;
    while i < zero.len()
        invariant
            i <= zero@.len(),
            forall|j: int| 0 <= j < i ==> tidy(#[trigger] zero@[j], capacity as nat),
        decreases zero@.len() - i,
    {
        if !check_list(&zero[i], capacity) {
            assert(!tidy(zero@[i as int], capacity as nat));
            return false;
        }
        i += 1;
    }
    true
}

/// Checks the neighbor lists of a layer above the zero layer.
pub(crate) fn check_upper_lists<U: Slots>(nodes: &Vec<Node<U>>, capacity: usize) -> (fits: bool)
    ensures
        fits == nodes.is_tidy(capacity as nat),
{
    let mut i: usize = 0;
    while i < nodes.len()
        invariant
            i <= nodes@.len(),
            forall|j: int| 0 <= j < i ==> tidy((#[trigger] nodes@[j]).neighbors, capacity as nat),
        decreases nodes@.len() - i,
    {
        if !check_list(&nodes[i].neighbors, capacity) {
            assert(!tidy(nodes@[i as int].neighbors, capacity as nat));
            return false;
        }
        i += 1;
    }
    true
}

} // verus!
