//! The nodes of the graph and their neighbor lists.

use crate::traverse::LayerView;
use vstd::prelude::*;
use vstd::slice::slice_subrange;

verus! {

/// Marks a slot of a neighbor list that holds no neighbor.
pub const EMPTY: usize = usize::MAX;

/// How many slots ahead of the first empty one a list has.
pub open spec fn live_len(slots: Seq<usize>) -> nat
    decreases slots.len(),
{
    if slots.len() == 0 || slots[0] == EMPTY {
        0
    } else {
        1 + live_len(slots.drop_first())
    }
}

/// The neighbors that a list holds: its slots up to the first empty one.
pub open spec fn live(slots: Seq<usize>) -> Seq<usize> {
    slots.take(live_len(slots) as int)
}

/// Whether nothing stands behind the first empty slot.
pub open spec fn compact(slots: Seq<usize>) -> bool {
    forall|i: int| live_len(slots) <= i < slots.len() ==> #[trigger] slots[i] == EMPTY
}

/// What the live length is.
pub proof fn lemma_live_len(slots: Seq<usize>)
    ensures
        live_len(slots) <= slots.len(),
        forall|i: int| 0 <= i < live_len(slots) ==> #[trigger] slots[i] != EMPTY,
        live_len(slots) < slots.len() ==> slots[live_len(slots) as int] == EMPTY,
    decreases slots.len(),
{
    if slots.len() > 0 && slots[0] != EMPTY {
        let rest = slots.drop_first();
        lemma_live_len(rest);
        assert forall|i: int| 0 <= i < live_len(slots) implies #[trigger] slots[i] != EMPTY by {
            if i > 0 {
                assert(slots[i] == rest[i - 1]);
            }
        }
        if live_len(slots) < slots.len() {
            assert(slots[live_len(slots) as int] == rest[live_len(rest) as int]);
        }
    }
}

/// The neighbors that a list holds are its slots in order, and the first slot that it
/// leaves out is empty.
pub proof fn law_live_slots(slots: Seq<usize>)
    ensures
        live(slots).len() <= slots.len(),
        forall|i: int|
            0 <= i < live(slots).len() ==> #[trigger] live(slots)[i] == slots[i] && slots[i]
                != usize::MAX,
        live(slots).len() < slots.len() ==> slots[live(slots).len() as int] == usize::MAX,
{
    lemma_live_len(slots);
}

/// Nothing else is the live length.
pub proof fn lemma_live_len_unique(slots: Seq<usize>, count: nat)
    requires
        count <= slots.len(),
        forall|i: int| 0 <= i < count ==> #[trigger] slots[i] != EMPTY,
        count < slots.len() ==> slots[count as int] == EMPTY,
    ensures
        live_len(slots) == count,
{
    lemma_live_len(slots);
    if live_len(slots) < count {
        assert(slots[live_len(slots) as int] != EMPTY);
    }
    if count < live_len(slots) {
        assert(slots[count as int] != EMPTY);
    }
}

/// The neighbors that a list holds: its slots up to the first empty one.
pub fn live_neighbors(slots: &[usize]) -> (neighbors: &[usize])
    ensures
        neighbors@ == live(slots@),
{
    let mut count: usize = 0;
    while count < slots.len()
        invariant
            count <= slots@.len(),
            forall|i: int| 0 <= i < count ==> #[trigger] slots@[i] != EMPTY,
        ensures
            count <= slots@.len(),
            forall|i: int| 0 <= i < count ==> #[trigger] slots@[i] != EMPTY,
            count < slots@.len() ==> slots@[count as int] == EMPTY,
        decreases slots@.len() - count,
    {
        if slots[count] == EMPTY {
            break ;
        }
        count += 1;
    }
    proof {
        lemma_live_len_unique(slots@, count as nat);
    }
    slice_subrange(slots, 0, count)
}

/// A neighbor list: a fixed number of slots.
pub trait Slots: Sized {
    /// What stands in the slots.
    spec fn slots(&self) -> Seq<usize>;

    /// Whether a list of this type can have `count` slots.
    spec fn can_hold(count: usize) -> bool;

    /// A list of `count` empty slots.
    fn vacant(count: usize) -> (list: Self)
        requires
            Self::can_hold(count),
        ensures
            list.slots() == Seq::new(count as nat, |i: int| EMPTY),
    ;

    /// The slots as a slice.
    fn as_slots(&self) -> (slots: &[usize])
        ensures
            slots@ == self.slots(),
    ;

    /// Writes one slot.
    fn set_slot(&mut self, slot: usize, value: usize)
        requires
            slot < old(self).slots().len(),
        ensures
            final(self).slots() == old(self).slots().update(slot as int, value),
    ;
}

/// Whether a list has `capacity` slots and nothing stands behind the first empty
/// one.
pub open spec fn tidy<S: Slots>(list: S, capacity: nat) -> bool {
    list.slots().len() == capacity && compact(list.slots())
}

/// Makes a list hold the given links. It held no more before.
pub fn fill<S: Slots>(list: &mut S, links: &Vec<usize>, capacity: usize)
    requires
        tidy(*old(list), capacity as nat),
        live_len(old(list).slots()) <= links@.len() <= capacity,
        forall|i: int| 0 <= i < links@.len() ==> #[trigger] links@[i] != EMPTY,
    ensures
        tidy(*final(list), capacity as nat),
        live(final(list).slots()) == links@,
{
    let ghost before = list.slots();
    let mut i: usize = 0;
    while i < links.len()
        invariant
            i <= links@.len() <= list.slots().len(),
            before.len() == list.slots().len(),
            forall|j: int| 0 <= j < i ==> #[trigger] list.slots()[j] == links@[j],
            forall|j: int| i <= j < before.len() ==> #[trigger] list.slots()[j] == before[j],
        decreases links@.len() - i,
    {
        list.set_slot(i, links[i]);
        i += 1;
    }
    proof {
        lemma_live_len_unique(list.slots(), links@.len());
        assert(live(list.slots()) =~= links@);
    }
}

/// A list of `capacity` slots that holds the given links.
pub fn filled<S: Slots>(links: &Vec<usize>, capacity: usize) -> (list: S)
    requires
        S::can_hold(capacity),
        links@.len() <= capacity,
        forall|i: int| 0 <= i < links@.len() ==> #[trigger] links@[i] != EMPTY,
    ensures
        tidy(list, capacity as nat),
        live(list.slots()) == links@,
{
    let mut list = S::vacant(capacity);
    proof {
        lemma_live_len_unique(list.slots(), 0);
    }
    fill(&mut list, links, capacity);
    list
}

/// A neighbor list of `N` slots.
#[derive(Clone, Copy, Debug, PartialEq, Eq)]
pub struct NeighborNodes<const N: usize> {
    /// The neighbors, ahead of the empty slots.
    pub neighbors: [usize; N],
}

/// Slots that are all empty.
pub fn empty_slots<const N: usize>() -> (slots: [usize; N])
    ensures
        slots@ == Seq::new(N as nat, |i: int| EMPTY),
{
    let slots: [usize; N] = [EMPTY; N];
    proof {
        vstd::array::axiom_spec_array_fill_for_copy_type::<usize, N>(EMPTY);
    }
    assert(slots@ =~= Seq::new(N as nat, |i: int| EMPTY));
    slots
}

impl<const N: usize> Slots for NeighborNodes<N> {
    open spec fn slots(&self) -> Seq<usize> {
        self.neighbors@
    }

    open spec fn can_hold(count: usize) -> bool {
        count == N
    }

    fn vacant(count: usize) -> (list: Self) {
        NeighborNodes { neighbors: empty_slots() }
    }

    fn as_slots(&self) -> (slots: &[usize]) {
        self.neighbors.as_slice()
    }

    fn set_slot(&mut self, slot: usize, value: usize) {
        self.neighbors[slot] = value;
    }
}

impl Slots for Vec<usize> {
    open spec fn slots(&self) -> Seq<usize> {
        self@
    }

    open spec fn can_hold(count: usize) -> bool {
        true
    }

    fn vacant(count: usize) -> (list: Self) {
        let list: Vec<usize> = vec![EMPTY; count];
        assert(list@ =~= Seq::new(count as nat, |i: int| EMPTY));
        list
    }

    fn as_slots(&self) -> (slots: &[usize]) {
        self.as_slice()
    }

    fn set_slot(&mut self, slot: usize, value: usize) {
        self[slot] = value;
    }
}

/// A node of a layer above the zero layer.
#[derive(Clone, Debug)]
pub struct Node<S> {
    /// The node's id, which is its index in the zero layer.
    pub zero_node: usize,
    /// The node's index in the layer below.
    pub next_node: usize,
    /// The indices, in this layer, of the node's neighbors.
    pub neighbors: S,
}

/// What a [`Node`] holds.
#[verifier::ext_equal]
pub struct NodeView {
    /// The node's id, which is its index in the zero layer.
    pub zero_node: usize,
    /// The node's index in the layer below.
    pub next_node: usize,
    /// The indices, in this layer, of the node's neighbors.
    pub links: Seq<usize>,
}

impl<S: Slots> View for Node<S> {
    type V = NodeView;

    open spec fn view(&self) -> NodeView {
        NodeView {
            zero_node: self.zero_node,
            next_node: self.next_node,
            links: live(self.neighbors.slots()),
        }
    }
}

/// The zero layer, given the links of its nodes: a node's index is its id.
pub open spec fn zero_layer(zero: Seq<Seq<usize>>) -> LayerView {
    LayerView { links: zero, ids: Seq::new(zero.len(), |i: int| i as usize) }
}

/// A layer above the zero layer, given its nodes.
pub open spec fn upper_layer(nodes: Seq<NodeView>) -> LayerView {
    LayerView {
        links: Seq::new(nodes.len(), |i: int| nodes[i].links),
        ids: Seq::new(nodes.len(), |i: int| nodes[i].zero_node),
    }
}

/// The links that neighbor lists hold.
pub open spec fn links_of<S: Slots>(lists: Seq<S>) -> Seq<Seq<usize>> {
    Seq::new(lists.len(), |i: int| live(lists[i].slots()))
}

/// What nodes hold.
pub open spec fn nodes_of<S: Slots>(nodes: Seq<Node<S>>) -> Seq<NodeView> {
    Seq::new(nodes.len(), |i: int| nodes[i]@)
}

/// A layer reads the lists of its nodes as they are stored. In the zero layer a node's
/// id is its place, above it is the one that the node holds.
pub proof fn law_layers_read_their_lists<S: Slots>(lists: Seq<S>, nodes: Seq<Node<S>>, i: int)
    ensures
        zero_layer(links_of(lists)).links.len() == lists.len(),
        zero_layer(links_of(lists)).ids.len() == lists.len(),
        upper_layer(nodes_of(nodes)).links.len() == nodes.len(),
        upper_layer(nodes_of(nodes)).ids.len() == nodes.len(),
        0 <= i < lists.len() <= usize::MAX ==> {
            let links = zero_layer(links_of(lists)).links[i];
            &&& zero_layer(links_of(lists)).ids[i] as int == i
            &&& links.is_prefix_of(lists[i].slots())
            &&& !links.contains(usize::MAX)
            &&& links.len() < lists[i].slots().len() ==> lists[i].slots()[links.len() as int]
                == usize::MAX
        },
        0 <= i < nodes.len() ==> {
            let links = upper_layer(nodes_of(nodes)).links[i];
            &&& upper_layer(nodes_of(nodes)).ids[i] == nodes[i].zero_node
            &&& nodes_of(nodes)[i].zero_node == nodes[i].zero_node
            &&& nodes_of(nodes)[i].next_node == nodes[i].next_node
            &&& nodes_of(nodes)[i].links == links
            &&& links.is_prefix_of(nodes[i].neighbors.slots())
            &&& !links.contains(usize::MAX)
            &&& links.len() < nodes[i].neighbors.slots().len()
                ==> nodes[i].neighbors.slots()[links.len() as int] == usize::MAX
        },
{
    if 0 <= i < lists.len() <= usize::MAX {
        law_live_slots(lists[i].slots());
    }
    if 0 <= i < nodes.len() {
        law_live_slots(nodes[i].neighbors.slots());
    }
}

/// The nodes of one layer as a search reads them.
pub trait Layer: Sized {
    /// The layer that is read.
    spec fn layer(&self) -> LayerView;

    /// The index of each node in the layer below.
    spec fn below(&self) -> Seq<usize>;

    /// Whether every neighbor list is tidy.
    spec fn is_tidy(&self, capacity: nat) -> bool;

    /// The indices that the node at `index` links to.
    fn links(&self, index: usize) -> (links: &[usize])
        requires
            index < self.layer().links.len(),
        ensures
            links@ == self.layer().links[index as int],
    ;

    /// The id of the node at `index`.
    fn id(&self, index: usize) -> (id: usize)
        requires
            index < self.layer().ids.len(),
        ensures
            id == self.layer().ids[index as int],
    ;

    /// Makes the node at `index` link to the given indices. It had no more links
    /// before.
    fn relink(&mut self, index: usize, links: &Vec<usize>, capacity: usize)
        requires
            old(self).is_tidy(capacity as nat),
            index < old(self).layer().links.len(),
            old(self).layer().links[index as int].len() <= links@.len() <= capacity,
            forall|i: int| 0 <= i < links@.len() ==> #[trigger] links@[i] != EMPTY,
        ensures
            final(self).is_tidy(capacity as nat),
            final(self).layer().links == old(self).layer().links.update(index as int, links@),
            final(self).layer().ids == old(self).layer().ids,
            final(self).below() == old(self).below(),
    ;
}

impl<S: Slots> Layer for Vec<S> {
    open spec fn layer(&self) -> LayerView {
        zero_layer(links_of(self@))
    }

    open spec fn below(&self) -> Seq<usize> {
        self.layer().ids
    }

    open spec fn is_tidy(&self, capacity: nat) -> bool {
        forall|i: int| 0 <= i < self@.len() ==> tidy(#[trigger] self@[i], capacity)
    }

    fn links(&self, index: usize) -> (links: &[usize]) {
        live_neighbors(self[index].as_slots())
    }

    fn id(&self, index: usize) -> (id: usize) {
        index
    }

    fn relink(&mut self, index: usize, links: &Vec<usize>, capacity: usize) {
        proof {
            lemma_live_len(self@[index as int].slots());
        }
        fill(&mut self[index], links, capacity);
        assert(self.layer().links =~= old(self).layer().links.update(index as int, links@));
        assert(self.layer().ids =~= old(self).layer().ids);
    }
}

impl<S: Slots> Layer for Vec<Node<S>> {
    open spec fn layer(&self) -> LayerView {
        upper_layer(nodes_of(self@))
    }

    open spec fn below(&self) -> Seq<usize> {
        Seq::new(self@.len(), |i: int| self@[i].next_node)
    }

    open spec fn is_tidy(&self, capacity: nat) -> bool {
        forall|i: int| 0 <= i < self@.len() ==> tidy((#[trigger] self@[i]).neighbors, capacity)
    }

    fn links(&self, index: usize) -> (links: &[usize]) {
        live_neighbors(self[index].neighbors.as_slots())
    }

    fn id(&self, index: usize) -> (id: usize) {
        self[index].zero_node
    }

    fn relink(&mut self, index: usize, links: &Vec<usize>, capacity: usize) {
        proof {
            lemma_live_len(self@[index as int].neighbors.slots());
        }
        fill(&mut self[index].neighbors, links, capacity);
        assert(self.layer().links =~= old(self).layer().links.update(index as int, links@));
        assert(self.layer().ids =~= old(self).layer().ids);
        assert(self.below() =~= old(self).below());
    }
}

} // verus!
