//! Lists of nodes in ascending order of distance.

use crate::metric::Neighbor;
use crate::unit::Unit;
use vstd::prelude::*;

verus! {

/// Whether a list stands in ascending order of distance.
pub open spec fn sorted<U: Unit>(list: Seq<Neighbor<U>>) -> bool {
    forall|i: int, j: int|
        0 <= i < j < list.len() ==> (#[trigger] list[i]).distance.key() <= (
        #[trigger] list[j]).distance.key()
}

/// Where a node at `distance` belongs in an ascending list: behind everything that
/// is no farther.
pub open spec fn rank<U: Unit>(list: Seq<Neighbor<U>>, distance: U) -> nat
    decreases list.len(),
{
    if list.len() == 0 {
        0
    } else if list.last().distance.key() <= distance.key() {
        list.len()
    } else {
        rank(list.drop_last(), distance)
    }
}

/// A list of at most `width` nodes once `found` was put where it belongs. The last
/// of a full list makes room.
pub open spec fn ranked_insert<U: Unit>(
    list: Seq<Neighbor<U>>,
    found: Neighbor<U>,
    width: nat,
) -> Seq<Neighbor<U>> {
    let room = if list.len() == width {
        list.drop_last()
    } else {
        list
    };
    room.insert(rank(list, found.distance) as int, found)
}

/// The rank of a distance splits a list: at it and behind it everything is
/// farther, and ahead of it nothing is if the list is ascending.
pub proof fn lemma_rank<U: Unit>(list: Seq<Neighbor<U>>, distance: U)
    ensures
        rank(list, distance) <= list.len(),
        forall|i: int|
            rank(list, distance) <= i < list.len() ==> distance.key() < (
            #[trigger] list[i]).distance.key(),
        sorted(list) ==> forall|i: int|
            0 <= i < rank(list, distance) ==> (#[trigger] list[i]).distance.key()
                <= distance.key(),
    decreases list.len(),
{
    if list.len() > 0 {
        let rest = list.drop_last();
        lemma_rank(rest, distance);
        if list.last().distance.key() <= distance.key() {
            assert(list[list.len() - 1] == list.last());
        } else {
            assert forall|i: int| rank(list, distance) <= i < list.len() implies distance.key() < (
            #[trigger] list[i]).distance.key() by {
                if i < rest.len() {
                    assert(list[i] == rest[i]);
                }
            }
            if sorted(list) {
                assert(sorted(rest)) by {
                    assert forall|i: int, j: int| 0 <= i < j < rest.len() implies (
                    #[trigger] rest[i]).distance.key() <= (#[trigger] rest[j]).distance.key() by {
                        assert(list[i] == rest[i] && list[j] == rest[j]);
                    }
                }
                assert forall|i: int| 0 <= i < rank(list, distance) implies (
                #[trigger] list[i]).distance.key() <= distance.key() by {
                    assert(list[i] == rest[i]);
                }
            }
        }
    }
}

/// Only one place splits a list as its rank does.
pub proof fn lemma_rank_unique<U: Unit>(list: Seq<Neighbor<U>>, distance: U, place: int)
    requires
        0 <= place <= list.len(),
        forall|i: int| 0 <= i < place ==> (#[trigger] list[i]).distance.key() <= distance.key(),
        forall|i: int|
            place <= i < list.len() ==> distance.key() < (#[trigger] list[i]).distance.key(),
    ensures
        rank(list, distance) == place,
    decreases list.len(),
{
    if list.len() > 0 {
        if place < list.len() {
            assert(list[list.len() - 1] == list.last());
            assert forall|i: int| 0 <= i < place implies (
            #[trigger] list.drop_last()[i]).distance.key() <= distance.key() by {
                assert(list.drop_last()[i] == list[i]);
            }
            assert forall|i: int| place <= i < list.drop_last().len() implies distance.key() < (
            #[trigger] list.drop_last()[i]).distance.key() by {
                assert(list.drop_last()[i] == list[i]);
            }
            lemma_rank_unique(list.drop_last(), distance, place);
        } else {
            assert(list[list.len() - 1] == list.last());
        }
    }
}

/// What a ranked insertion leaves: an ascending list stays ascending, and every
/// node in it is the one found or was there before.
pub proof fn lemma_ranked_insert<U: Unit>(
    list: Seq<Neighbor<U>>,
    found: Neighbor<U>,
    width: nat,
)
    requires
        rank(list, found.distance) != width,
        list.len() <= width || width == 0,
    ensures
        ({
            let after = ranked_insert(list, found, width);
            let place = rank(list, found.distance) as int;
            &&& after.len() == if list.len() == width {
                list.len()
            } else {
                list.len() + 1
            }
            &&& 0 <= place < after.len()
            &&& after[place] == found
            &&& forall|i: int| 0 <= i < place ==> #[trigger] after[i] == list[i]
            &&& forall|i: int| place < i < after.len() ==> #[trigger] after[i] == list[i - 1]
            &&& sorted(list) ==> sorted(after)
        }),
{
    lemma_rank(list, found.distance);
    let after = ranked_insert(list, found, width);
    let place = rank(list, found.distance) as int;
    if sorted(list) {
        assert forall|i: int, j: int| 0 <= i < j < after.len() implies (
        #[trigger] after[i]).distance.key() <= (#[trigger] after[j]).distance.key() by {
            let a = if i < place {
                list[i]
            } else if i == place {
                found
            } else {
                list[i - 1]
            };
            let b = if j < place {
                list[j]
            } else if j == place {
                found
            } else {
                list[j - 1]
            };
            assert(after[i] == a && after[j] == b);
        }
    }
}

/// Where a node at `distance` belongs in an ascending list.
pub fn place_of<U: Unit>(list: &Vec<Neighbor<U>>, distance: U) -> (place: usize)
    requires
        sorted(list@),
    ensures
        place == rank(list@, distance),
{
    let count: usize = list.len();
    if count == 0 || list[count - 1].distance.at_most(distance) {
        return count;
    }
    let mut low: usize = 0;
    let mut high: usize = count - 1;
    while low < high
        invariant
            low <= high <= list@.len(),
            sorted(list@),
            forall|i: int|
                0 <= i < low ==> (#[trigger] list@[i]).distance.key() <= distance.key(),
            forall|i: int|
                high <= i < list@.len() ==> distance.key() < (
                #[trigger] list@[i]).distance.key(),
        decreases high - low,
    {
        let middle: usize = low + (high - low) / 2;
        if list[middle].distance.at_most(distance) {
            low = middle + 1;
        } else {
            high = middle;
        }
    }
    proof {
        lemma_rank_unique(list@, distance, low as int);
    }
    low
}

} // verus!
