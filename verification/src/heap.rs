//! A binary heap over the candidates of a best-first search.
//!
//! The heap lives in an ordinary vector, so a search can start from the candidates
//! that the descent left behind.

use crate::metric::Neighbor;
use crate::traverse::{is_closest, precedes};
use crate::unit::Unit;
use vstd::prelude::*;

verus! {

/// The place of the node that a heap's place hangs from.
pub open spec fn parent(place: int) -> int {
    (place - 1) / 2
}

/// Whether nothing but perhaps `loose` precedes what it hangs from.
pub open spec fn heap_but<U: Unit>(nodes: Seq<Neighbor<U>>, loose: int) -> bool {
    forall|i: int|
        0 < i < nodes.len() && i != loose ==> !precedes(
            #[trigger] nodes[i],
            nodes[parent(i)],
        )
}

/// Whether no node precedes the one it hangs from.
pub open spec fn is_heap<U: Unit>(nodes: Seq<Neighbor<U>>) -> bool {
    heap_but(nodes, -1)
}

/// Nothing in a heap precedes its first node.
pub proof fn lemma_heap_first<U: Unit>(nodes: Seq<Neighbor<U>>)
    requires
        is_heap(nodes),
        nodes.len() > 0,
    ensures
        is_closest(nodes, nodes[0]),
{
    assert forall|i: int| 0 <= i < nodes.len() implies !precedes(
        #[trigger] nodes[i],
        nodes[0],
    ) by {
        lemma_heap_path(nodes, i);
    }
}

proof fn lemma_heap_path<U: Unit>(nodes: Seq<Neighbor<U>>, place: int)
    requires
        is_heap(nodes),
        0 <= place < nodes.len(),
    ensures
        !precedes(nodes[place], nodes[0]),
    decreases place,
{
    if place > 0 {
        lemma_heap_path(nodes, parent(place));
    }
}

/// Writing one place replaces one node.
pub proof fn lemma_update_multiset<A>(s: Seq<A>, place: int, a: A)
    requires
        0 <= place < s.len(),
    ensures
        s.update(place, a).to_multiset() == s.to_multiset().remove(s[place]).insert(a),
{
    broadcast use {vstd::seq_lib::to_multiset_remove, vstd::seq_lib::to_multiset_insert};

    assert(s.update(place, a) =~= s.remove(place).insert(place, a));
}

/// Exchanging two places leaves the same nodes.
proof fn lemma_swap_multiset<A>(s: Seq<A>, i: int, j: int)
    requires
        0 <= i < s.len(),
        0 <= j < s.len(),
        i != j,
    ensures
        s.update(i, s[j]).update(j, s[i]).to_multiset() == s.to_multiset(),
{
    broadcast use vstd::seq_lib::to_multiset_contains;

    let once = s.update(i, s[j]);
    lemma_update_multiset(s, i, s[j]);
    lemma_update_multiset(once, j, s[i]);
    assert(s.to_multiset().count(s[i]) > 0);
    assert(once.update(j, s[i]).to_multiset() =~= s.to_multiset());
}

/// Whether `a` is to be expanded ahead of `b`.
fn ahead<U: Unit>(a: &Neighbor<U>, b: &Neighbor<U>) -> (holds: bool)
    ensures
        holds == precedes(*a, *b),
{
    if a.distance.less(b.distance) {
        true
    } else {
        a.distance.at_most(b.distance) && a.index < b.index
    }
}

/// Adds a node to a heap.
pub(crate) fn heap_push<U: Unit>(nodes: &mut Vec<Neighbor<U>>, node: Neighbor<U>)
    requires
        is_heap(old(nodes)@),
    ensures
        is_heap(final(nodes)@),
        final(nodes)@.to_multiset() == old(nodes)@.to_multiset().insert(node),
{
    nodes.push(node);
    let ghost all = nodes@.to_multiset();
    proof {
        broadcast use vstd::seq_lib::to_multiset_build;

        assert(all == old(nodes)@.to_multiset().insert(node));
        assert forall|i: int| 0 < i < nodes@.len() && i != nodes@.len() - 1 implies !precedes(
            #[trigger] nodes@[i],
            nodes@[parent(i)],
        ) by {
            assert(nodes@[i] == old(nodes)@[i]);
        }
    }
    let mut hole: usize = nodes.len() - 1;
    while hole > 0
        invariant
            hole < nodes@.len(),
            nodes@.to_multiset() == all,
            heap_but(nodes@, hole as int),
            forall|i: int|
                0 < i < nodes@.len() && hole > 0 && parent(i) == hole ==> !precedes(
                    #[trigger] nodes@[i],
                    nodes@[parent(hole as int)],
                ),
        ensures
            nodes@.to_multiset() == all,
            is_heap(nodes@),
        decreases hole,
    {
        let above: usize = (hole - 1) / 2;
        let lower = nodes[hole];
        let upper = nodes[above];
        if !ahead(&lower, &upper) {
            assert(is_heap(nodes@)) by {
                assert forall|i: int| 0 < i < nodes@.len() implies !precedes(
                    #[trigger] nodes@[i],
                    nodes@[parent(i)],
                ) by {
                    if i == hole {
                        assert(parent(i) == above);
                    }
                }
            }
            break ;
        }
        let ghost before = nodes@;
        nodes[hole] = upper;
        nodes[above] = lower;
        proof {
            lemma_swap_multiset(before, hole as int, above as int);
            assert(nodes@ == before.update(hole as int, upper).update(above as int, lower));
            assert forall|i: int| 0 < i < nodes@.len() && i != above implies !precedes(
                #[trigger] nodes@[i],
                nodes@[parent(i)],
            ) by {
                if i != hole {
                    assert(nodes@[i] == before[i]);
                    assert(!precedes(before[i], before[parent(i)]));
                }
            }
            assert forall|i: int|
                0 < i < nodes@.len() && above > 0 && parent(i) == above implies !precedes(
                #[trigger] nodes@[i],
                nodes@[parent(above as int)],
            ) by {
                assert(!precedes(before[above as int], before[parent(above as int)]));
                if i != hole {
                    assert(nodes@[i] == before[i]);
                    assert(!precedes(before[i], before[parent(i)]));
                }
            }
        }
        hole = above;
    }
}

/// Takes the first node out of a heap.
pub(crate) fn heap_pop<U: Unit>(nodes: &mut Vec<Neighbor<U>>) -> (first: Neighbor<U>)
    requires
        is_heap(old(nodes)@),
        old(nodes)@.len() > 0,
    ensures
        is_heap(final(nodes)@),
        first == old(nodes)@[0],
        final(nodes)@.to_multiset() == old(nodes)@.to_multiset().remove(first),
        final(nodes)@.len() == old(nodes)@.len() - 1,
{
    let first = nodes.swap_remove(0);
    let ghost all = nodes@.to_multiset();
    let size: usize = nodes.len();
    proof {
        lemma_pop_multiset(old(nodes)@, nodes@);
        assert forall|i: int| 0 < i < nodes@.len() && parent(i) != 0 implies !precedes(
            #[trigger] nodes@[i],
            nodes@[parent(i)],
        ) by {
            assert(nodes@[i] == old(nodes)@[i]);
            assert(nodes@[parent(i)] == old(nodes)@[parent(i)]);
        }
    }
    let mut hole: usize = 0;
    while hole < size / 2
        invariant
            size == nodes@.len(),
            nodes@.to_multiset() == all,
            forall|i: int|
                0 < i < nodes@.len() && parent(i) != hole ==> !precedes(
                    #[trigger] nodes@[i],
                    nodes@[parent(i)],
                ),
            forall|i: int|
                0 < i < nodes@.len() && hole > 0 && parent(i) == hole ==> !precedes(
                    #[trigger] nodes@[i],
                    nodes@[parent(hole as int)],
                ),
        ensures
            size == nodes@.len(),
            nodes@.to_multiset() == all,
            is_heap(nodes@),
        decreases size - hole,
    {
        let left: usize = 2 * hole + 1;
        let mut below: usize = left;
        if left + 1 < size {
            let a = nodes[left];
            let b = nodes[left + 1];
            if ahead(&b, &a) {
                below = left + 1;
            }
        }
        let upper = nodes[hole];
        let lower = nodes[below];
        if !ahead(&lower, &upper) {
            assert(is_heap(nodes@)) by {
                assert forall|i: int| 0 < i < nodes@.len() implies !precedes(
                    #[trigger] nodes@[i],
                    nodes@[parent(i)],
                ) by {
                    if parent(i) == hole {
                        assert(i == left || i == left + 1);
                    }
                }
            }
            break ;
        }
        let ghost before = nodes@;
        nodes[hole] = lower;
        nodes[below] = upper;
        proof {
            lemma_swap_multiset(before, hole as int, below as int);
            assert(nodes@ == before.update(hole as int, lower).update(below as int, upper));
            assert(parent(below as int) == hole);
            assert forall|i: int| 0 < i < nodes@.len() && parent(i) != below implies !precedes(
                #[trigger] nodes@[i],
                nodes@[parent(i)],
            ) by {
                if i == hole {
                    assert(!precedes(before[below as int], before[parent(hole as int)]));
                } else if i == below {
                    assert(nodes@[parent(i)] == lower);
                } else if parent(i) == hole {
                    assert(i == left || i == left + 1);
                    assert(nodes@[i] == before[i]);
                } else {
                    assert(nodes@[i] == before[i]);
                    assert(nodes@[parent(i)] == before[parent(i)]);
                    assert(!precedes(before[i], before[parent(i)]));
                }
            }
            assert forall|i: int|
                0 < i < nodes@.len() && below > 0 && parent(i) == below implies !precedes(
                #[trigger] nodes@[i],
                nodes@[parent(below as int)],
            ) by {
                assert(nodes@[i] == before[i]);
                assert(!precedes(before[i], before[parent(i)]));
            }
        }
        hole = below;
    }
    first
}

proof fn lemma_pop_multiset<A>(before: Seq<A>, after: Seq<A>)
    requires
        before.len() > 0,
        after == before.update(0, before.last()).drop_last(),
    ensures
        after.to_multiset() == before.to_multiset().remove(before[0]),
{
    broadcast use {vstd::seq_lib::to_multiset_remove, vstd::seq_lib::to_multiset_contains};

    let moved = before.update(0, before.last());
    lemma_update_multiset(before, 0, before.last());
    assert(after =~= moved.remove(moved.len() - 1));
    assert(moved.last() == before.last());
    assert(before.contains(before.last())) by {
        assert(before[before.len() - 1] == before.last());
    }
    assert(before.contains(before[0]));
    assert(after.to_multiset() =~= before.to_multiset().remove(before[0]));
}

} // verus!
