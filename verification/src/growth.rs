//! An insertion leaves an index as it should be.

use crate::join::{chosen, lemma_offered, offered, within};
use crate::metric::Metric;
use crate::model::{raised, GraphView, IndexView};
use crate::nodes::{upper_layer, NodeView};
use vstd::prelude::*;

verus! {

/// New layers on top are as they should be, and leave those below as they were.
pub proof fn lemma_raised(
    zero: Seq<Seq<usize>>,
    layers: Seq<Seq<NodeView>>,
    id: usize,
    level: nat,
    m: nat,
)
    requires
        zero.len() <= usize::MAX,
        id < zero.len(),
        forall|ix: int|
            0 <= ix < layers.len() ==> #[trigger] (GraphView { zero, layers }).layer_formed(
                ix,
                m,
            ),
        0 < layers.len() < level ==> layers.last().last().zero_node == id,
    ensures
        ({
            let after = raised(layers, id, level);
            &&& after.len() == if layers.len() >= level {
                layers.len()
            } else {
                level
            }
            &&& layers.is_prefix_of(after)
            &&& forall|ix: int|
                0 <= ix < after.len() ==> #[trigger] (GraphView {
                    zero,
                    layers: after,
                }).layer_formed(ix, m)
        }),
    decreases level - layers.len(),
{
    if layers.len() < level {
        let before = GraphView { zero, layers };
        let node = NodeView {
            zero_node: id,
            next_node: if layers.len() == 0 {
                id
            } else {
                (layers.last().len() - 1) as usize
            },
            links: Seq::empty(),
        };
        let more = layers.push(seq![node]);
        let graph = GraphView { zero, layers: more };
        assert forall|ix: int| 0 <= ix < more.len() implies #[trigger] graph.layer_formed(
            ix,
            m,
        ) by {
            if ix < layers.len() {
                assert(before.layer_formed(ix, m));
                assert(more[ix] == layers[ix]);
                let nodes = more[ix];
                assert forall|i: int| 0 <= i < nodes.len() implies (
                #[trigger] nodes[i]).zero_node < zero.len() && graph.anchored(ix, nodes[i]) by {
                    assert(before.anchored(ix, nodes[i]));
                    if ix > 0 {
                        assert(more[ix - 1] == layers[ix - 1]);
                    }
                }
            } else {
                assert(more[ix] == seq![node]);
                if ix > 0 {
                    assert(before.layer_formed(ix - 1, m));
                    assert(more[ix - 1] == layers.last());
                }
                assert(graph.anchored(ix, node));
            }
        }
        assert(more.last().last() == node);
        lemma_raised(zero, more, id, level, m);
        assert(layers.is_prefix_of(more));
    }
}

impl<T, Met: Metric<T>> IndexView<Met, T> {
    /// A layer that a newcomer joined has all of its nodes, with one more behind.
    pub proof fn lemma_joined_upper(self, newcomer: T, height: nat, ix: int)
        requires
            self.wf(),
            0 < self.len() < usize::MAX,
            0 <= ix < height <= self.top(),
        ensures
            ({
                let nodes = self.graph.layers[ix];
                let after = self.joined_upper(newcomer, height, ix);
                &&& nodes.len() <= self.len()
                &&& after.len() == nodes.len() + 1
                &&& within(upper_layer(after).links, self.m as nat, after.len())
                &&& after.last().zero_node == self.len()
                &&& forall|i: int|
                    0 <= i < nodes.len() ==> (#[trigger] after[i]).zero_node
                        == nodes[i].zero_node && after[i].next_node == nodes[i].next_node
            }),
    {
        let nodes = self.graph.layers[ix];
        let level = (ix + 1) as nat;
        let links = upper_layer(nodes).links;
        let found = self.insertion_found(newcomer, height, level);
        let targets = chosen(found, self.m as nat);
        assert(self.graph.layer_formed(ix, self.m as nat));
        self.lemma_insertion_found(newcomer, height, level);
        assert forall|i: int| 0 <= i < targets.len() implies (#[trigger] targets[i])
            < links.len() by {
            assert(targets[i] == found[i].index);
        }
        let near = self.between(newcomer, level);
        lemma_offered(near, self.m as nat, links, targets);
        let more = offered(near, self.m as nat, links, targets);
        let after = self.joined_upper(newcomer, height, ix);
        let joined = upper_layer(after).links;
        assert forall|node: int| 0 <= node < joined.len() implies (
        #[trigger] joined[node]).len() <= self.m by {
            if node < nodes.len() {
                assert(joined[node] == more[node]);
            } else {
                assert(joined[node] == targets);
            }
        }
        assert forall|node: int, slot: int|
            0 <= node < joined.len() && 0 <= slot < joined[node].len() implies (
        #[trigger] joined[node][slot]) < after.len() by {
            if node < nodes.len() {
                assert(joined[node] == more[node]);
                assert(more[node][slot] < links.len() + 1);
            } else {
                assert(joined[node] == targets);
                assert(targets[slot] < links.len());
            }
        }
    }

    /// The zero layer that a newcomer joined has one more node, and no links out of
    /// it.
    pub proof fn lemma_joined_zero(self, newcomer: T, height: nat)
        requires
            self.wf(),
            0 < self.len() < usize::MAX,
            height <= self.top(),
        ensures
            self.joined_zero(newcomer, height).len() == self.len() + 1,
            within(self.joined_zero(newcomer, height), self.m0 as nat, self.len() + 1),
    {
        let links = self.graph.zero;
        let found = self.insertion_found(newcomer, height, 0);
        let targets = chosen(found, self.m0 as nat);
        self.lemma_insertion_found(newcomer, height, 0);
        assert forall|i: int| 0 <= i < targets.len() implies (#[trigger] targets[i])
            < links.len() by {
            assert(targets[i] == found[i].index);
        }
        let near = self.between(newcomer, 0);
        lemma_offered(near, self.m0 as nat, links, targets);
        let more = offered(near, self.m0 as nat, links, targets);
        let joined = self.joined_zero(newcomer, height);
        assert forall|node: int| 0 <= node < joined.len() implies (
        #[trigger] joined[node]).len() <= self.m0 by {
            if node < links.len() {
                assert(joined[node] == more[node]);
            }
        }
        assert forall|node: int, slot: int|
            0 <= node < joined.len() && 0 <= slot < joined[node].len() implies (
        #[trigger] joined[node][slot]) < self.len() + 1 by {
            if node < links.len() {
                assert(joined[node] == more[node]);
                assert(more[node][slot] < links.len() + 1);
            } else {
                assert(joined[node] == targets);
                assert(targets[slot] < links.len());
            }
        }
    }

    /// An insertion leaves an index as it should be. The layers reach up to the
    /// newcomer's level.
    pub proof fn lemma_inserted(self, newcomer: T, level: nat)
        requires
            self.wf(),
            self.len() < usize::MAX,
            level < usize::MAX,
        ensures
            self.inserted(newcomer, level).wf(),
            self.inserted(newcomer, level).len() == self.len() + 1,
            self.inserted(newcomer, level).top() == if level <= self.top() {
                self.top()
            } else {
                level
            },
    {
        let after = self.inserted(newcomer, level);
        let m = self.m as nat;
        if self.len() == 0 {
            let zero: Seq<Seq<usize>> = seq![Seq::empty()];
            lemma_raised(zero, Seq::empty(), 0, level, m);
            assert(self.graph.layers =~= Seq::empty());
            assert(within(zero, self.m0 as nat, 1));
        } else {
            let height = self.height(level);
            let zero = self.joined_zero(newcomer, height);
            let layers = Seq::new(
                self.top(),
                |ix: int|
                    if ix < height {
                        self.joined_upper(newcomer, height, ix)
                    } else {
                        self.graph.layers[ix]
                    },
            );
            let graph = GraphView { zero, layers };
            self.lemma_joined_zero(newcomer, height);
            assert forall|ix: int| 0 <= ix < layers.len() implies #[trigger] graph.layer_formed(
                ix,
                m,
            ) by {
                self.lemma_layer_grown(newcomer, height, graph, ix);
            }
            if 0 < layers.len() < level {
                self.lemma_joined_upper(newcomer, height, layers.len() - 1);
                assert(layers.last() == self.joined_upper(newcomer, height, layers.len() - 1));
            }
            lemma_raised(zero, layers, self.len() as usize, level, m);
        }
    }

    proof fn lemma_layer_grown(self, newcomer: T, height: nat, graph: GraphView, ix: int)
        requires
            self.wf(),
            0 < self.len() < usize::MAX,
            height <= self.top(),
            graph.zero.len() == self.len() + 1,
            graph.layers == Seq::new(
                self.top(),
                |ix: int|
                    if ix < height {
                        self.joined_upper(newcomer, height, ix)
                    } else {
                        self.graph.layers[ix]
                    },
            ),
            0 <= ix < self.top(),
        ensures
            graph.layer_formed(ix, self.m as nat),
    {
        let m = self.m as nat;
        let old_nodes = self.graph.layers[ix];
        let nodes = graph.layers[ix];
        assert(self.graph.layer_formed(ix, m));
        if ix < height {
            self.lemma_joined_upper(newcomer, height, ix);
        }
        if ix > 0 {
            assert(self.graph.layer_formed(ix - 1, m));
            if ix - 1 < height {
                self.lemma_joined_upper(newcomer, height, ix - 1);
            }
        }
        assert forall|i: int| 0 <= i < nodes.len() implies (#[trigger] nodes[i]).zero_node
            < graph.zero.len() && graph.anchored(ix, nodes[i]) by {
            if i < old_nodes.len() {
                assert(old_nodes[i].zero_node == nodes[i].zero_node);
                assert(self.graph.anchored(ix, old_nodes[i]));
            } else {
                assert(nodes[i] == nodes.last());
            }
        }
    }
}

} // verus!
