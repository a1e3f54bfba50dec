//! The model of an index: what it holds, what a search reports, and what an
//! insertion leaves behind.

use crate::join::{chosen, offered, within};
use crate::metric::{link_distance, query_distance, Metric, Neighbor};
use crate::nodes::{upper_layer, zero_layer, NodeView};
use crate::params::Params;
use crate::search::{passing, standing_at};
use crate::tombstones::alive;
use crate::traverse::{same_but_order, Beam, LayerView, Run};
use crate::unit::Unit;
use vstd::prelude::*;

verus! {

/// The links between the nodes of an index.
#[verifier::ext_equal]
pub struct GraphView {
    /// The links of the zero layer, which holds every node.
    pub zero: Seq<Seq<usize>>,
    /// The layers above it, each of which holds some of the nodes of the one below.
    pub layers: Seq<Seq<NodeView>>,
}

impl GraphView {
    /// The layer at a level: the zero layer, or one of those above.
    pub open spec fn layer(self, level: nat) -> LayerView {
        if level == 0 {
            zero_layer(self.zero)
        } else {
            upper_layer(self.layers[level - 1])
        }
    }

    /// Whether a node of a layer leads to itself in the layer below.
    pub open spec fn anchored(self, ix: int, node: NodeView) -> bool {
        if ix == 0 {
            node.next_node == node.zero_node
        } else {
            &&& node.next_node < self.layers[ix - 1].len()
            &&& self.layers[ix - 1][node.next_node as int].zero_node == node.zero_node
        }
    }

    /// Whether a layer above the zero layer is as it should be: it is not empty and
    /// no larger than the zero layer, has at most `m` links per node and none out of
    /// the layer, and each of its nodes leads to itself in the layer below.
    pub open spec fn layer_formed(self, ix: int, m: nat) -> bool {
        let nodes = self.layers[ix];
        &&& 0 < nodes.len() <= self.zero.len()
        &&& within(upper_layer(nodes).links, m, nodes.len())
        &&& forall|i: int|
            0 <= i < nodes.len() ==> (#[trigger] nodes[i]).zero_node < self.zero.len()
                && self.anchored(ix, nodes[i])
    }

    /// Whether the nodes of a layer above the zero layer stand in the order of their
    /// ids.
    pub open spec fn layer_ordered(self, ix: int) -> bool {
        let nodes = self.layers[ix];
        forall|i: int, j: int|
            0 <= i < j < nodes.len() ==> (#[trigger] nodes[i]).zero_node < (
            #[trigger] nodes[j]).zero_node
    }

    /// Whether the nodes of every layer stand in the order of their ids.
    pub open spec fn ordered(self) -> bool {
        forall|ix: int| 0 <= ix < self.layers.len() ==> #[trigger] self.layer_ordered(ix)
    }

    /// Whether a graph is as it should be: at most `m0` links per node of the zero
    /// layer and `m` per node of the others, and none out of its layer.
    pub open spec fn well_formed(self, m: nat, m0: nat) -> bool {
        &&& self.zero.len() <= usize::MAX
        &&& self.layers.len() < usize::MAX
        &&& within(self.zero, m0, self.zero.len())
        &&& self.zero.len() == 0 ==> self.layers.len() == 0
        &&& forall|ix: int| 0 <= ix < self.layers.len() ==> #[trigger] self.layer_formed(ix, m)
    }

    /// The id of the node that searches start from: the first of the top layer.
    pub open spec fn entry_id(self) -> usize {
        if self.layers.len() == 0 {
            0
        } else {
            self.layers.last()[0].zero_node
        }
    }
}

/// What an index holds.
#[verifier::ext_equal]
pub struct IndexView<Met, T> {
    /// The metric.
    pub metric: Met,
    /// How many links a node has above the zero layer.
    pub m: usize,
    /// How many links a node has in the zero layer.
    pub m0: usize,
    /// The features, by id.
    pub features: Seq<T>,
    /// The links.
    pub graph: GraphView,
    /// The parameters.
    pub params: Params,
    /// The ids that were soft-deleted.
    pub dead: Set<usize>,
}

/// An index without nodes.
pub open spec fn empty_index<Met, T>(
    metric: Met,
    m: usize,
    m0: usize,
    features: Seq<T>,
    params: Params,
) -> IndexView<Met, T> {
    IndexView {
        metric,
        m,
        m0,
        features,
        graph: GraphView { zero: Seq::empty(), layers: Seq::empty() },
        params,
        dead: Set::empty(),
    }
}

/// Accepts every id.
pub open spec fn anything() -> spec_fn(usize) -> bool {
    |id: usize| true
}

/// The first of some ids that is not dead.
pub open spec fn first_live(ids: Seq<usize>, dead: Set<usize>) -> Option<usize>
    decreases ids.len(),
{
    if ids.len() == 0 {
        None
    } else if !dead.contains(ids[0]) {
        Some(ids[0])
    } else {
        first_live(ids.drop_first(), dead)
    }
}

/// A search that is done with a layer, moved to the layer below: it stands at the
/// closest node that it found.
pub open spec fn lowered<U>(nodes: Seq<NodeView>, run: Run<U>) -> Run<U> {
    let best = run.nearest[0];
    let node = nodes[best.index as int];
    standing_at(Neighbor { index: node.next_node, distance: best.distance }, node.zero_node)
}

/// Nodes with other links.
pub open spec fn relinked(nodes: Seq<NodeView>, links: Seq<Seq<usize>>) -> Seq<NodeView> {
    Seq::new(nodes.len(), |i: int| NodeView { links: links[i], ..nodes[i] })
}

/// Layers with as many more on top as a level needs, each of which holds only the
/// node of the given id.
pub open spec fn raised(layers: Seq<Seq<NodeView>>, id: usize, level: nat) -> Seq<Seq<NodeView>>
    decreases level - layers.len(),
{
    if layers.len() >= level {
        layers
    } else {
        let node = NodeView {
            zero_node: id,
            next_node: if layers.len() == 0 {
                id
            } else {
                (layers.last().len() - 1) as usize
            },
            links: Seq::empty(),
        };
        raised(layers.push(seq![node]), id, level)
    }
}

impl<T, Met> IndexView<Met, T> {
    /// Whether an index is as it should be: its graph is, and every node has a
    /// feature.
    pub open spec fn wf(self) -> bool {
        &&& self.graph.well_formed(self.m as nat, self.m0 as nat)
        &&& self.graph.zero.len() <= self.features.len()
    }

    /// Whether an index can be searched: it is as it should be, and does not have
    /// features without a node.
    pub open spec fn searchable(self) -> bool {
        self.wf() && (self.features.len() > 0 ==> self.len() > 0)
    }

    /// Whether a search for `ef` nodes that stops at a level can be made: either there
    /// is nothing to look for, or the index is as it should be and has nodes.
    pub open spec fn can_search(self, ef: nat, level: nat) -> bool {
        ef > 0 && self.features.len() > 0 && level <= self.top() ==> self.wf() && self.len() > 0
    }

    /// The number of nodes.
    pub open spec fn len(self) -> nat {
        self.graph.zero.len()
    }

    /// The level of the top layer.
    pub open spec fn top(self) -> nat {
        self.graph.layers.len()
    }

    /// The level from which on an insertion at a level joins layers that are there.
    pub open spec fn height(self, level: nat) -> nat {
        if level <= self.top() {
            level
        } else {
            self.top()
        }
    }

    /// The first live node of the layers from a level down.
    pub open spec fn entry_below(self, level: nat) -> Option<usize>
        decreases level,
    {
        let here = first_live(self.graph.layer(level).ids, self.dead);
        if here is Some || level == 0 {
            here
        } else {
            self.entry_below((level - 1) as nat)
        }
    }

    /// The first live node from the top down.
    pub open spec fn entry(self) -> Option<usize> {
        if self.len() == 0 {
            None
        } else {
            self.entry_below(self.top())
        }
    }

    /// The number of nodes in the layer at a level. In the zero layer that is the
    /// number of features.
    pub open spec fn layer_len(self, level: nat) -> nat {
        if level == 0 {
            self.features.len()
        } else if level <= self.top() {
            self.graph.layers[level - 1].len()
        } else {
            0
        }
    }

    /// Whether there is a node at an index of the layer at a level.
    pub open spec fn has_item(self, level: nat, item: int) -> bool {
        level <= self.top() && 0 <= item < self.graph.layer(level).ids.len()
    }

    /// The index once the node of an id was soft-deleted.
    pub open spec fn deleted(self, id: usize) -> Self {
        IndexView { dead: self.dead.insert(id), ..self }
    }
}

impl<T, Met: Metric<T>> IndexView<Met, T> {
    /// The distance from a query to the node of each id.
    pub open spec fn distance_from(self, query: T) -> spec_fn(usize) -> Met::Unit {
        query_distance(self.metric, query, self.features)
    }

    /// A search over the layer at a level.
    pub open spec fn beam(
        self,
        query: T,
        level: nat,
        accept: spec_fn(usize) -> bool,
        width: nat,
    ) -> Beam<Met::Unit> {
        Beam {
            layer: self.graph.layer(level),
            distance: self.distance_from(query),
            accept,
            width,
        }
    }

    /// A search over a layer that only passes through it, for one node of any kind.
    pub open spec fn passage(self, query: T, level: nat) -> Beam<Met::Unit> {
        self.beam(query, level, alive(Set::empty()), 1)
    }

    /// A search at its start: in the top layer, at the entry point. Soft deletion
    /// does not matter: a deleted node is as good a waypoint as any.
    pub open spec fn start(self, query: T) -> Run<Met::Unit> {
        let id = self.graph.entry_id();
        standing_at(Neighbor { index: 0, distance: (self.distance_from(query))(id) }, id)
    }

    /// A search that arrived at level `from`, brought down to level `to` through the
    /// layers in between.
    pub open spec fn descended(
        self,
        query: T,
        run: Run<Met::Unit>,
        from: nat,
        to: nat,
    ) -> Run<Met::Unit>
        decreases from,
    {
        if from <= to {
            run
        } else {
            let found = self.passage(query, from).depth_first(run);
            self.descended(
                query,
                lowered(self.graph.layers[from - 1], found),
                (from - 1) as nat,
                to,
            )
        }
    }

    /// A search as it arrives at a level.
    pub open spec fn arrival(self, query: T, level: nat) -> Run<Met::Unit> {
        self.descended(query, self.start(query), self.top(), level)
    }

    /// The search over the zero layer for `ef` live nodes that `pass` accepts.
    pub open spec fn zero_beam(
        self,
        query: T,
        ef: nat,
        pass: spec_fn(usize) -> bool,
    ) -> Beam<Met::Unit> {
        self.beam(query, 0, passing(self.dead, pass), ef)
    }

    /// Where a search of the zero layer ends.
    pub open spec fn zero_run(
        self,
        query: T,
        ef: nat,
        pass: spec_fn(usize) -> bool,
    ) -> Run<Met::Unit> {
        let beam = self.zero_beam(query, ef, pass);
        beam.best_first(beam.scrub(self.arrival(query, 0)))
    }

    /// Whether a search of the zero layer can have left `after` where it found
    /// `before`.
    pub open spec fn zero_searched(
        self,
        query: T,
        ef: nat,
        pass: spec_fn(usize) -> bool,
        before: Run<Met::Unit>,
        after: Run<Met::Unit>,
    ) -> bool {
        if ef == 0 || self.features.len() == 0 {
            after == before
        } else {
            same_but_order(after, self.zero_run(query, ef, pass))
        }
    }

    /// What a search for the `ef` closest live nodes that `pass` accepts finds.
    pub open spec fn nearest(
        self,
        query: T,
        ef: nat,
        pass: spec_fn(usize) -> bool,
    ) -> Seq<Neighbor<Met::Unit>> {
        if ef == 0 || self.features.len() == 0 {
            Seq::empty()
        } else {
            self.zero_run(query, ef, pass).nearest
        }
    }

    /// Where a search that stops at a level above the zero layer ends.
    pub open spec fn upper_run(self, query: T, level: nat) -> Run<Met::Unit> {
        self.passage(query, level).depth_first(self.arrival(query, level))
    }

    /// Whether a search that stops at a level can have left `after` where it found
    /// `before`.
    pub open spec fn searched_at(
        self,
        query: T,
        ef: nat,
        level: nat,
        before: Run<Met::Unit>,
        after: Run<Met::Unit>,
    ) -> bool {
        if ef == 0 || self.features.len() == 0 || level > self.top() {
            after == before
        } else if level == 0 {
            same_but_order(after, self.zero_run(query, ef, anything()))
        } else {
            after == self.upper_run(query, level)
        }
    }

    /// What a search that stops at a level finds there. Above the zero layer that is
    /// one node, live or not.
    pub open spec fn nearest_at(self, query: T, ef: nat, level: nat) -> Seq<
        Neighbor<Met::Unit>,
    > {
        if ef == 0 || self.features.len() == 0 || level > self.top() {
            Seq::empty()
        } else if level == 0 {
            self.nearest(query, ef, anything())
        } else {
            self.upper_run(query, level).nearest
        }
    }

    /// The search that an insertion makes over the layer at a level for the nodes to
    /// link to. Soft-deleted nodes are left out of the zero layer.
    pub open spec fn insertion_beam(self, query: T, level: nat) -> Beam<Met::Unit> {
        self.beam(
            query,
            level,
            alive(
                if level == 0 {
                    self.dead
                } else {
                    Set::empty()
                },
            ),
            self.params.spec_ef_construction() as nat,
        )
    }

    /// An insertion's search as it arrives at a level, no higher than `height`: down
    /// to `height` it passes through the layers, from there on it searches them.
    pub open spec fn insertion_arrival(self, query: T, height: nat, level: nat) -> Run<Met::Unit>
        decreases height - level,
    {
        if level >= height {
            self.arrival(query, height)
        } else {
            let found = self.insertion_beam(query, level + 1).depth_first(
                self.insertion_arrival(query, height, level + 1),
            );
            lowered(self.graph.layers[level as int], found)
        }
    }

    /// An insertion's search once it is done with a level.
    pub open spec fn insertion_run(self, query: T, height: nat, level: nat) -> Run<Met::Unit> {
        self.insertion_beam(query, level).depth_first(
            self.insertion_arrival(query, height, level),
        )
    }

    /// What an insertion's search finds at a level.
    pub open spec fn insertion_found(self, query: T, height: nat, level: nat) -> Seq<
        Neighbor<Met::Unit>,
    > {
        self.insertion_run(query, height, level).nearest
    }

    /// The distance between the nodes of a layer, with `newcomer` behind the last.
    pub open spec fn between(self, newcomer: T, level: nat) -> spec_fn(usize, usize) -> Met::Unit {
        link_distance(self.metric, self.features, self.graph.layer(level).ids, newcomer)
    }

    /// The zero layer once a newcomer joined it.
    pub open spec fn joined_zero(self, newcomer: T, height: nat) -> Seq<Seq<usize>> {
        let targets = chosen(self.insertion_found(newcomer, height, 0), self.m0 as nat);
        offered(self.between(newcomer, 0), self.m0 as nat, self.graph.zero, targets).push(targets)
    }

    /// The layer at level `ix + 1` once a newcomer joined it.
    pub open spec fn joined_upper(self, newcomer: T, height: nat, ix: int) -> Seq<NodeView> {
        let level = (ix + 1) as nat;
        let nodes = self.graph.layers[ix];
        let targets = chosen(self.insertion_found(newcomer, height, level), self.m as nat);
        relinked(
            nodes,
            offered(
                self.between(newcomer, level),
                self.m as nat,
                upper_layer(nodes).links,
                targets,
            ),
        ).push(
            NodeView {
                zero_node: self.len() as usize,
                next_node: if ix == 0 {
                    self.len() as usize
                } else {
                    self.graph.layers[ix - 1].len() as usize
                },
                links: targets,
            },
        )
    }

    /// The graph once a newcomer was inserted at a level: it joined the zero layer
    /// and every layer up to its level, and new layers hold it alone.
    pub open spec fn joined(self, newcomer: T, level: nat) -> GraphView {
        let height = self.height(level);
        GraphView {
            zero: self.joined_zero(newcomer, height),
            layers: raised(
                Seq::new(
                    self.top(),
                    |ix: int|
                        if ix < height {
                            self.joined_upper(newcomer, height, ix)
                        } else {
                            self.graph.layers[ix]
                        },
                ),
                self.len() as usize,
                level,
            ),
        }
    }

    /// The index once a newcomer was inserted at a level.
    pub open spec fn inserted(self, newcomer: T, level: nat) -> Self {
        IndexView {
            graph: if self.len() == 0 {
                GraphView {
                    zero: seq![Seq::empty()],
                    layers: raised(Seq::empty(), 0, level),
                }
            } else {
                self.joined(newcomer, level)
            },
            features: self.features.push(newcomer),
            ..self
        }
    }
}

impl<T, Met> IndexView<Met, T> {
    /// The layers of an index can be searched.
    pub proof fn lemma_layer(self, level: nat)
        requires
            self.wf(),
            level <= self.top(),
        ensures
            self.graph.layer(level).closed(),
            forall|i: int|
                0 <= i < self.graph.layer(level).ids.len() ==> (
                #[trigger] self.graph.layer(level).ids[i]) < self.len(),
            self.len() > 0 ==> self.graph.layer(level).ids.len() > 0,
    {
        let layer = self.graph.layer(level);
        if level > 0 {
            let ix = level - 1;
            assert(self.graph.layer_formed(ix, self.m as nat));
            let nodes = self.graph.layers[ix];
            assert forall|i: int| 0 <= i < layer.ids.len() implies (#[trigger] layer.ids[i])
                < self.len() by {
                assert(layer.ids[i] == nodes[i].zero_node);
            }
        }
    }
}

impl<T, Met: Metric<T>> IndexView<Met, T> {
    /// A search starts out sound.
    pub proof fn lemma_start(self, query: T, accept: spec_fn(usize) -> bool, width: nat)
        requires
            self.wf(),
            self.len() > 0,
        ensures
            self.beam(query, self.top(), accept, width).sound(self.start(query)),
            self.graph.entry_id() < self.len(),
    {
        let level = self.top();
        let beam = self.beam(query, level, accept, width);
        let run = self.start(query);
        self.lemma_layer(level);
        if level > 0 {
            assert(self.graph.layers.last() == self.graph.layers[level - 1]);
        }
        assert(beam.layer.ids[0] == self.graph.entry_id());
        assert(beam.knows(run, run.nearest[0]));
    }

    /// A search that is moved down a layer stays sound.
    pub proof fn lemma_lowered(
        self,
        query: T,
        level: nat,
        run: Run<Met::Unit>,
        above: Beam<Met::Unit>,
        accept: spec_fn(usize) -> bool,
        width: nat,
    )
        requires
            self.wf(),
            0 < level <= self.top(),
            above.layer == self.graph.layer(level),
            above.distance == self.distance_from(query),
            above.sound(run),
            run.nearest.len() > 0,
        ensures
            self.beam(query, (level - 1) as nat, accept, width).sound(
                lowered(self.graph.layers[level - 1], run),
            ),
    {
        let ix = level - 1;
        let nodes = self.graph.layers[ix];
        let best = run.nearest[0];
        let after = lowered(nodes, run);
        let beam = self.beam(query, (level - 1) as nat, accept, width);
        assert(self.graph.layer_formed(ix, self.m as nat));
        assert(above.knows(run, best));
        let node = nodes[best.index as int];
        assert(self.graph.anchored(ix, node));
        assert(beam.layer.ids[node.next_node as int] == node.zero_node) by {
            if ix > 0 {
                assert(self.graph.layer_formed(ix - 1, self.m as nat));
            }
        }
        assert(beam.knows(after, after.nearest[0]));
    }

    /// A search stays sound on its way down, and stands at one node.
    pub proof fn lemma_descended(
        self,
        query: T,
        run: Run<Met::Unit>,
        from: nat,
        to: nat,
        accept: spec_fn(usize) -> bool,
        width: nat,
    )
        requires
            self.wf(),
            to <= from <= self.top(),
            self.passage(query, from).sound(run),
            run.candidates.len() == 1,
            run.nearest.len() == 1,
        ensures
            ({
                let after = self.descended(query, run, from, to);
                &&& self.beam(query, to, accept, width).sound(after)
                &&& after.candidates.len() == 1
                &&& after.nearest.len() == 1
            }),
        decreases from,
    {
        if from <= to {
            self.passage(query, from).lemma_sound_for_any(
                self.beam(query, to, accept, width),
                run,
            );
        } else {
            let beam = self.passage(query, from);
            self.lemma_layer(from);
            beam.lemma_depth_first_keeps(run);
            let found = beam.depth_first(run);
            let below = (from - 1) as nat;
            self.lemma_lowered(query, from, found, beam, alive(Set::empty()), 1);
            self.lemma_descended(
                query,
                lowered(self.graph.layers[from - 1], found),
                below,
                to,
                accept,
                width,
            );
        }
    }

    /// A search arrives sound, and at one node.
    pub proof fn lemma_arrival(
        self,
        query: T,
        level: nat,
        accept: spec_fn(usize) -> bool,
        width: nat,
    )
        requires
            self.wf(),
            self.len() > 0,
            level <= self.top(),
        ensures
            ({
                let run = self.arrival(query, level);
                &&& self.beam(query, level, accept, width).sound(run)
                &&& run.candidates.len() == 1
                &&& run.nearest.len() == 1
            }),
    {
        self.lemma_start(query, alive(Set::empty()), 1);
        self.lemma_descended(query, self.start(query), self.top(), level, accept, width);
    }

    /// A search of the zero layer ends sound, with at most `ef` nodes, all of which
    /// may be reported.
    pub proof fn lemma_zero_run(self, query: T, ef: nat, pass: spec_fn(usize) -> bool)
        requires
            self.wf(),
            self.len() > 0,
            ef > 0,
        ensures
            ({
                let beam = self.zero_beam(query, ef, pass);
                let run = self.zero_run(query, ef, pass);
                &&& beam.sound(run)
                &&& beam.fits(run)
                &&& beam.screened(run)
                &&& beam.keeps(beam.scrub(self.arrival(query, 0)), run)
            }),
    {
        let beam = self.zero_beam(query, ef, pass);
        self.lemma_arrival(query, 0, beam.accept, ef);
        self.lemma_layer(0);
        beam.lemma_scrub(self.arrival(query, 0));
        beam.lemma_best_first_keeps(beam.scrub(self.arrival(query, 0)));
    }

    /// An insertion's search arrives sound, and at one node.
    pub proof fn lemma_insertion_arrival(self, query: T, height: nat, level: nat)
        requires
            self.wf(),
            self.len() > 0,
            level <= height <= self.top(),
        ensures
            ({
                let run = self.insertion_arrival(query, height, level);
                &&& self.insertion_beam(query, level).sound(run)
                &&& run.candidates.len() == 1
                &&& run.nearest.len() == 1
            }),
        decreases height - level,
    {
        let here = self.insertion_beam(query, level);
        if level >= height {
            self.lemma_arrival(query, level, here.accept, here.width);
        } else {
            self.lemma_insertion_arrival(query, height, level + 1);
            self.lemma_layer(level + 1);
            let above = self.insertion_beam(query, level + 1);
            let run = self.insertion_arrival(query, height, level + 1);
            above.lemma_depth_first_keeps(run);
            self.lemma_lowered(
                query,
                level + 1,
                above.depth_first(run),
                above,
                here.accept,
                here.width,
            );
        }
    }

    /// What an insertion's search finds are nodes of the layer, each once, and one
    /// at least.
    pub proof fn lemma_insertion_found(self, query: T, height: nat, level: nat)
        requires
            self.wf(),
            self.len() > 0,
            level <= height <= self.top(),
        ensures
            ({
                let found = self.insertion_found(query, height, level);
                &&& found.len() > 0
                &&& forall|i: int|
                    0 <= i < found.len() ==> (#[trigger] found[i]).index < self.graph.layer(
                        level,
                    ).ids.len()
                &&& forall|i: int, j: int|
                    0 <= i < j < found.len() ==> (#[trigger] found[i]).index != (
                    #[trigger] found[j]).index
            }),
    {
        self.lemma_insertion_arrival(query, height, level);
        self.lemma_layer(level);
        let beam = self.insertion_beam(query, level);
        let run = self.insertion_arrival(query, height, level);
        beam.lemma_depth_first_keeps(run);
        let found = beam.depth_first(run);
        assert forall|i: int| 0 <= i < found.nearest.len() implies (
        #[trigger] found.nearest[i]).index < self.graph.layer(level).ids.len() by {
            assert(beam.knows(found, found.nearest[i]));
        }
    }
}

} // verus!
