//! How a node joins a layer.

use crate::feature_store::FeatureStore;
use crate::metric::{Metric, Neighbor};
use crate::nodes::{Layer, EMPTY};
use crate::search::Probe;
use crate::select::{adopted, lemma_adopted};
use crate::unit::Unit;
use vstd::prelude::*;

verus! {

/// The nodes that a newcomer links to: the closest, as many as it has slots.
pub open spec fn chosen<U>(nearest: Seq<Neighbor<U>>, capacity: nat) -> Seq<usize> {
    Seq::new(
        if nearest.len() <= capacity {
            nearest.len()
        } else {
            capacity
        },
        |i: int| nearest[i].index,
    )
}

/// The links of a layer once a newcomer, to be put behind its last node, was
/// offered to each of `targets`.
pub open spec fn offered<U: Unit>(
    near: spec_fn(usize, usize) -> U,
    capacity: nat,
    links: Seq<Seq<usize>>,
    targets: Seq<usize>,
) -> Seq<Seq<usize>>
    decreases targets.len(),
{
    if targets.len() == 0 {
        links
    } else {
        let before = offered(near, capacity, links, targets.drop_last());
        let target = targets.last();
        before.update(
            target as int,
            adopted(near, capacity, target, before[target as int], links.len() as usize),
        )
    }
}

/// Whether every node has at most `capacity` links, each to one of `count` nodes.
pub open spec fn within(links: Seq<Seq<usize>>, capacity: nat, count: nat) -> bool {
    &&& forall|node: int| 0 <= node < links.len() ==> (#[trigger] links[node]).len() <= capacity
    &&& forall|node: int, slot: int|
        0 <= node < links.len() && 0 <= slot < links[node].len() ==> (
        #[trigger] links[node][slot]) < count
}

/// Offering a newcomer leads to no links but those that were there and those to the
/// newcomer, and no node gets more links than it has slots.
pub proof fn lemma_offered<U: Unit>(
    near: spec_fn(usize, usize) -> U,
    capacity: nat,
    links: Seq<Seq<usize>>,
    targets: Seq<usize>,
)
    requires
        links.len() < usize::MAX,
        within(links, capacity, links.len()),
        forall|i: int| 0 <= i < targets.len() ==> (#[trigger] targets[i]) < links.len(),
    ensures
        offered(near, capacity, links, targets).len() == links.len(),
        within(offered(near, capacity, links, targets), capacity, links.len() + 1),
    decreases targets.len(),
{
    if targets.len() > 0 {
        let front = targets.drop_last();
        assert forall|i: int| 0 <= i < front.len() implies (#[trigger] front[i])
            < links.len() by {
            assert(front[i] == targets[i]);
        }
        lemma_offered(near, capacity, links, front);
        let before = offered(near, capacity, links, front);
        let after = offered(near, capacity, links, targets);
        let target = targets.last();
        assert(targets[targets.len() - 1] == target);
        let fresh = links.len() as usize;
        lemma_adopted(near, capacity, target, before[target as int], fresh);
        assert forall|node: int, slot: int|
            0 <= node < after.len() && 0 <= slot < after[node].len() implies (
        #[trigger] after[node][slot]) < links.len() + 1 by {
            if node == target {
                let list = before[target as int];
                let x = after[node][slot];
                if x != fresh {
                    assert(list.contains(x));
                    assert(before[node][list.index_of(x)] == x);
                }
            } else {
                assert(after[node][slot] == before[node][slot]);
            }
        }
    }
}

/// A node that a newcomer is not offered to keeps its links.
pub proof fn lemma_offered_others<U: Unit>(
    near: spec_fn(usize, usize) -> U,
    capacity: nat,
    links: Seq<Seq<usize>>,
    targets: Seq<usize>,
    node: int,
)
    requires
        0 <= node < links.len() <= usize::MAX,
        forall|i: int| 0 <= i < targets.len() ==> (#[trigger] targets[i]) < links.len(),
        !targets.contains(node as usize),
    ensures
        offered(near, capacity, links, targets).len() == links.len(),
        offered(near, capacity, links, targets)[node] == links[node],
    decreases targets.len(),
{
    if targets.len() > 0 {
        let front = targets.drop_last();
        assert(targets[targets.len() - 1] == targets.last());
        assert(targets.contains(targets.last()));
        assert forall|i: int| 0 <= i < front.len() implies (#[trigger] front[i])
            < links.len() by {
            assert(front[i] == targets[i]);
        }
        if front.contains(node as usize) {
            let k = front.index_of(node as usize);
            assert(targets[k] == node as usize);
        }
        lemma_offered_others(near, capacity, links, front, node);
    }
}

/// A node that a newcomer is offered to once has the links that it adopted.
pub proof fn lemma_offered_target<U: Unit>(
    near: spec_fn(usize, usize) -> U,
    capacity: nat,
    links: Seq<Seq<usize>>,
    targets: Seq<usize>,
    node: int,
)
    requires
        0 <= node < links.len() <= usize::MAX,
        forall|i: int| 0 <= i < targets.len() ==> (#[trigger] targets[i]) < links.len(),
        targets.no_duplicates(),
        targets.contains(node as usize),
    ensures
        offered(near, capacity, links, targets).len() == links.len(),
        offered(near, capacity, links, targets)[node] == adopted(
            near,
            capacity,
            node as usize,
            links[node],
            links.len() as usize,
        ),
    decreases targets.len(),
{
    let front = targets.drop_last();
    assert(targets[targets.len() - 1] == targets.last());
    assert forall|i: int, j: int| 0 <= i < front.len() && 0 <= j < front.len() && i
        != j implies front[i] != front[j] by {
        assert(front[i] == targets[i] && front[j] == targets[j]);
    }
    assert forall|i: int| 0 <= i < front.len() implies (#[trigger] front[i])
        < links.len() by {
        assert(front[i] == targets[i]);
    }
    if targets.last() == node as usize {
        assert(!front.contains(node as usize)) by {
            if front.contains(node as usize) {
                let k = front.index_of(node as usize);
                assert(targets[k] == targets[targets.len() - 1]);
            }
        }
        lemma_offered_others(near, capacity, links, front, node);
    } else {
        let k = targets.index_of(node as usize);
        assert(front[k] == node as usize);
        lemma_offered_target(near, capacity, links, front, node);
    }
}

/// Whether no node links to itself, or twice to another.
pub open spec fn simple(links: Seq<Seq<usize>>) -> bool {
    forall|node: int|
        0 <= node < links.len() ==> (#[trigger] links[node]).no_duplicates()
            && !links[node].contains(node as usize)
}

/// A layer once a newcomer joined it: whoever was offered the newcomer links to it or
/// has no room, nobody has fewer links than before, and no node links to itself, or
/// twice to another, if none did.
pub proof fn lemma_joined_links<U: Unit>(
    near: spec_fn(usize, usize) -> U,
    capacity: nat,
    links: Seq<Seq<usize>>,
    targets: Seq<usize>,
)
    requires
        links.len() < usize::MAX,
        within(links, capacity, links.len()),
        targets.no_duplicates(),
        forall|i: int| 0 <= i < targets.len() ==> (#[trigger] targets[i]) < links.len(),
    ensures
        ({
            let after = offered(near, capacity, links, targets).push(targets);
            let fresh = links.len() as usize;
            &&& after.len() == links.len() + 1
            &&& forall|node: int|
                0 <= node < links.len() ==> links[node].len() <= (#[trigger] after[node]).len()
            &&& forall|node: int|
                0 <= node < links.len() && targets.contains(node as usize) ==> (
                #[trigger] after[node]).contains(fresh) || after[node].len() == capacity
            &&& simple(links) ==> simple(after)
        }),
{
    let more = offered(near, capacity, links, targets);
    let after = more.push(targets);
    let fresh = links.len() as usize;
    lemma_offered(near, capacity, links, targets);
    assert forall|node: int| 0 <= node < links.len() implies {
        &&& links[node].len() <= (#[trigger] after[node]).len()
        &&& targets.contains(node as usize) ==> after[node].contains(fresh) || after[node].len()
            == capacity
        &&& simple(links) ==> after[node].no_duplicates() && !after[node].contains(node as usize)
    } by {
        assert(after[node] == more[node]);
        if targets.contains(node as usize) {
            lemma_offered_target(near, capacity, links, targets, node);
            lemma_adopted(near, capacity, node as usize, links[node], fresh);
            let list = after[node];
            if links[node].len() < capacity {
                assert(list[links[node].len() as int] == fresh);
            }
            if simple(links) {
                assert(!links[node].contains(fresh)) by {
                    if links[node].contains(fresh) {
                        let slot = links[node].index_of(fresh);
                        assert(links[node][slot] < links.len());
                    }
                }
                assert(!list.contains(node as usize)) by {
                    if list.contains(node as usize) {
                        let slot = list.index_of(node as usize);
                        assert(links[node].contains(list[slot]) || list[slot] == fresh);
                    }
                }
            }
        } else {
            lemma_offered_others(near, capacity, links, targets, node);
        }
    }
    if simple(links) {
        assert(!targets.contains(fresh)) by {
            if targets.contains(fresh) {
                assert(targets[targets.index_of(fresh)] < links.len());
            }
        }
        assert forall|node: int| 0 <= node < after.len() implies (
        #[trigger] after[node]).no_duplicates() && !after[node].contains(node as usize) by {
            if node == links.len() {
                assert(after[node] == targets);
            }
        }
    }
}

/// The indices of the first `capacity` nodes of a list.
pub fn choose_links<U: Unit>(nearest: &Vec<Neighbor<U>>, capacity: usize) -> (links: Vec<usize>)
    ensures
        links@ == chosen(nearest@, capacity as nat),
{
    let mut links: Vec<usize> = Vec::new();
    let mut i: usize = 0;
    while i < nearest.len() && i < capacity
        invariant
            i <= nearest@.len(),
            i <= capacity,
            links@.len() == i,
            forall|j: int| 0 <= j < i ==> #[trigger] links@[j] == nearest@[j].index,
        decreases nearest@.len() - i,
    {
        links.push(nearest[i].index);
        i += 1;
    }
    assert(links@ =~= chosen(nearest@, capacity as nat));
    links
}

impl<'a, T, Met: Metric<T>, S: FeatureStore<T>> Probe<'a, Met, T, S> {
    /// Offers the probe's point, to be put at `fresh`, behind the last node of a
    /// layer, to each of `targets`.
    pub fn offer<L: Layer>(
        &self,
        layer: &mut L,
        targets: &Vec<usize>,
        fresh: usize,
        capacity: usize,
    )
        requires
            self.measures(old(layer).layer().ids),
            fresh == old(layer).layer().ids.len(),
            old(layer).layer().links.len() == fresh,
            fresh < EMPTY,
            old(layer).is_tidy(capacity as nat),
            within(old(layer).layer().links, capacity as nat, fresh as nat),
            forall|i: int| 0 <= i < targets@.len() ==> (#[trigger] targets@[i]) < fresh,
        ensures
            final(layer).is_tidy(capacity as nat),
            final(layer).layer().links == offered(
                self.between(old(layer).layer().ids),
                capacity as nat,
                old(layer).layer().links,
                targets@,
            ),
            final(layer).layer().ids == old(layer).layer().ids,
            final(layer).below() == old(layer).below(),
    {
        let ghost links = layer.layer().links;
        let ghost ids = layer.layer().ids;
        let ghost near = self.between(ids);
        let mut i: usize = 0;
        assert(targets@.take(0) =~= Seq::empty());
        while i < targets.len()
            invariant
                self.measures(ids),
                fresh == ids.len(),
                links.len() == fresh,
                fresh < EMPTY,
                near == self.between(ids),
                within(links, capacity as nat, fresh as nat),
                forall|i: int| 0 <= i < targets@.len() ==> (#[trigger] targets@[i]) < fresh,
                i <= targets@.len(),
                layer.is_tidy(capacity as nat),
                layer.layer().links == offered(
                    near,
                    capacity as nat,
                    links,
                    targets@.take(i as int),
                ),
                layer.layer().ids == ids,
                layer.below() == old(layer).below(),
            decreases targets@.len() - i,
        {
            let target: usize = targets[i];
            let ghost before = layer.layer().links;
            proof {
                lemma_offered(near, capacity as nat, links, targets@.take(i as int));
                assert(targets@.take(i + 1).drop_last() =~= targets@.take(i as int));
                assert(targets@.take(i + 1).last() == target);
            }
            let list = self.adopt(layer, fresh, target, capacity);
            proof {
                lemma_adopted(near, capacity as nat, target, before[target as int], fresh);
                assert forall|j: int| 0 <= j < list@.len() implies #[trigger] list@[j]
                    != EMPTY by {
                    let x = list@[j];
                    if x != fresh {
                        assert(before[target as int].contains(x));
                        let slot = before[target as int].index_of(x);
                        assert(before[target as int][slot] == x);
                    }
                }
            }
            layer.relink(target, &list, capacity);
            i += 1;
        }
        assert(targets@.take(i as int) =~= targets@);
    }
}

} // verus!
