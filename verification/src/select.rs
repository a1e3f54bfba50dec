//! Which links a node keeps.
//!
//! A node with a free slot takes any newcomer. Once its list is full, the links to
//! keep are chosen by the neighbor selection heuristic (Algorithm 4 of Malkov and
//! Yashunin) and not by distance alone. Keeping the nearest is pathological on
//! clustered data: every member of a dense cluster is nearer to every other member
//! than to anything outside of it, so each list fills up with its own cluster, and
//! the cluster becomes a component that a search can enter but never leave. The
//! heuristic keeps a candidate that is closer to the node than to any neighbor kept
//! already, so one link survives per direction.

use crate::feature_store::FeatureStore;
use crate::metric::{feature_at, link_distance, Metric, Neighbor};
use crate::nodes::Layer;
use crate::ranking::{lemma_rank, lemma_ranked_insert, place_of, rank, ranked_insert, sorted};
use crate::search::Probe;
use crate::unit::Unit;
use vstd::prelude::*;

verus! {

/// The nodes at the given indices, with their distances from the node at `target`.
pub open spec fn measured<U>(
    near: spec_fn(usize, usize) -> U,
    target: usize,
    indices: Seq<usize>,
) -> Seq<Neighbor<U>> {
    Seq::new(
        indices.len(),
        |i: int| Neighbor { index: indices[i], distance: near(target, indices[i]) },
    )
}

/// Nodes in ascending order of distance. Those at the same distance stay in order.
pub open spec fn ranked<U: Unit>(list: Seq<Neighbor<U>>) -> Seq<Neighbor<U>>
    decreases list.len(),
{
    if list.len() == 0 {
        list
    } else {
        let rest = ranked(list.drop_last());
        rest.insert(rank(rest, list.last().distance) as int, list.last())
    }
}

/// Whether a candidate is closer to the target than to anything kept.
pub open spec fn diverse<U: Unit>(
    near: spec_fn(usize, usize) -> U,
    kept: Seq<usize>,
    candidate: Neighbor<U>,
) -> bool {
    forall|i: int|
        0 <= i < kept.len() ==> candidate.distance.key() < near(
            candidate.index,
            #[trigger] kept[i],
        ).key()
}

/// Candidates parted into those that lead in a new direction and the others.
#[verifier::ext_equal]
pub struct Sifted {
    /// The candidates that were diverse.
    pub kept: Seq<usize>,
    /// The candidates that were not.
    pub pruned: Seq<usize>,
}

/// Parts candidates, in their order, until `capacity` were kept.
pub open spec fn sift<U: Unit>(
    near: spec_fn(usize, usize) -> U,
    capacity: nat,
    list: Seq<Neighbor<U>>,
) -> Sifted
    decreases list.len(),
{
    if list.len() == 0 {
        Sifted { kept: Seq::empty(), pruned: Seq::empty() }
    } else {
        let before = sift(near, capacity, list.drop_last());
        if before.kept.len() == capacity {
            before
        } else if diverse(near, before.kept, list.last()) {
            Sifted { kept: before.kept.push(list.last().index), pruned: before.pruned }
        } else {
            Sifted { kept: before.kept, pruned: before.pruned.push(list.last().index) }
        }
    }
}

/// What is kept, filled up to `capacity` with what was pruned.
pub open spec fn refilled(sifted: Sifted, capacity: nat) -> Seq<usize> {
    let room = capacity - sifted.kept.len();
    if sifted.pruned.len() <= room {
        sifted.kept + sifted.pruned
    } else {
        sifted.kept + sifted.pruned.take(room)
    }
}

/// The `capacity` links that the node at `target` keeps out of `candidates`.
pub open spec fn selected<U: Unit>(
    near: spec_fn(usize, usize) -> U,
    capacity: nat,
    target: usize,
    candidates: Seq<usize>,
) -> Seq<usize> {
    refilled(sift(near, capacity, ranked(measured(near, target, candidates))), capacity)
}

/// The links of the node at `target` once it was offered `newcomer`.
pub open spec fn adopted<U: Unit>(
    near: spec_fn(usize, usize) -> U,
    capacity: nat,
    target: usize,
    links: Seq<usize>,
    newcomer: usize,
) -> Seq<usize> {
    if links.len() < capacity {
        links.push(newcomer)
    } else {
        selected(near, capacity, target, links.push(newcomer))
    }
}

/// Ranking sorts a list and changes nothing else.
pub proof fn lemma_ranked<U: Unit>(list: Seq<Neighbor<U>>)
    ensures
        ranked(list).len() == list.len(),
        sorted(ranked(list)),
        ranked(list).to_multiset() == list.to_multiset(),
        forall|i: int| 0 <= i < list.len() ==> list.contains(#[trigger] ranked(list)[i]),
    decreases list.len(),
{
    broadcast use {
        vstd::seq_lib::to_multiset_insert,
        vstd::seq_lib::to_multiset_build,
        vstd::seq_lib::to_multiset_contains,
    };

    if list.len() > 0 {
        let rest = ranked(list.drop_last());
        let last = list.last();
        lemma_ranked(list.drop_last());
        lemma_rank(rest, last.distance);
        lemma_ranked_insert(rest, last, rest.len() + 1);
        assert(ranked(list) == ranked_insert(rest, last, rest.len() + 1));
        assert(list =~= list.drop_last().push(last));
    }
    assert forall|i: int| 0 <= i < list.len() implies list.contains(
        #[trigger] ranked(list)[i],
    ) by {
        assert(ranked(list).contains(ranked(list)[i]));
        assert(ranked(list).to_multiset().count(ranked(list)[i]) > 0);
    }
}

/// Whether no node stands in a list twice.
pub open spec fn distinct<U>(list: Seq<Neighbor<U>>) -> bool {
    forall|i: int, j: int|
        0 <= i < j < list.len() ==> (#[trigger] list[i]).index != (#[trigger] list[j]).index
}

/// Ranking brings no node in twice.
proof fn lemma_ranked_distinct<U: Unit>(list: Seq<Neighbor<U>>)
    requires
        distinct(list),
    ensures
        distinct(ranked(list)),
    decreases list.len(),
{
    if list.len() > 0 {
        let front = list.drop_last();
        let rest = ranked(front);
        let last = list.last();
        assert(distinct(front)) by {
            assert forall|i: int, j: int| 0 <= i < j < front.len() implies (
            #[trigger] front[i]).index != (#[trigger] front[j]).index by {
                assert(front[i] == list[i] && front[j] == list[j]);
            }
        }
        lemma_ranked_distinct(front);
        lemma_ranked(front);
        lemma_rank(rest, last.distance);
        let place = rank(rest, last.distance) as int;
        let after = ranked(list);
        assert forall|i: int| 0 <= i < rest.len() implies (#[trigger] rest[i]).index
            != last.index by {
            let origin = front.index_of(rest[i]);
            assert(front.contains(rest[i]));
            assert(list[origin] == rest[i]);
            assert(list[list.len() - 1] == last);
        }
        assert forall|i: int, j: int| 0 <= i < j < after.len() implies (
        #[trigger] after[i]).index != (#[trigger] after[j]).index by {
            let a = if i < place {
                rest[i]
            } else if i == place {
                last
            } else {
                rest[i - 1]
            };
            let b = if j < place {
                rest[j]
            } else if j == place {
                last
            } else {
                rest[j - 1]
            };
            assert(after[i] == a && after[j] == b);
        }
    }
}

/// Whether an index was kept or pruned.
spec fn sifted_out(sifted: Sifted, index: usize) -> bool {
    sifted.kept.contains(index) || sifted.pruned.contains(index)
}

/// Whether a list names an index.
spec fn names<U>(list: Seq<Neighbor<U>>, index: usize) -> bool {
    exists|i: int| 0 <= i < list.len() && (#[trigger] list[i]).index == index
}

/// What sifting leaves: it loses nothing before `capacity` were kept, and brings
/// nothing in from elsewhere, nor twice.
proof fn lemma_sift<U: Unit>(
    near: spec_fn(usize, usize) -> U,
    capacity: nat,
    list: Seq<Neighbor<U>>,
)
    ensures
        ({
            let sifted = sift(near, capacity, list);
            &&& sifted.kept.len() <= capacity
            &&& sifted.kept.len() < capacity ==> sifted.kept.len() + sifted.pruned.len()
                == list.len()
            &&& forall|x: usize| #[trigger] sifted_out(sifted, x) ==> names(list, x)
            &&& distinct(list) ==> sifted.kept.no_duplicates() && sifted.pruned.no_duplicates()
                && forall|x: usize| #[trigger]
                sifted.kept.contains(x) ==> !sifted.pruned.contains(x)
        }),
    decreases list.len(),
{
    if list.len() > 0 {
        let front = list.drop_last();
        lemma_sift(near, capacity, front);
        let before = sift(near, capacity, front);
        let sifted = sift(near, capacity, list);
        let last = list.last();
        assert(list[list.len() - 1] == last);
        assert forall|x: usize| #[trigger] sifted_out(sifted, x) implies names(list, x) by {
            if sifted_out(before, x) {
                let i = choose|i: int| 0 <= i < front.len() && (#[trigger] front[i]).index == x;
                assert(list[i].index == x);
            } else {
                assert(x == last.index);
            }
        }
        if distinct(list) {
            assert(distinct(front)) by {
                assert forall|i: int, j: int| 0 <= i < j < front.len() implies (
                #[trigger] front[i]).index != (#[trigger] front[j]).index by {
                    assert(front[i] == list[i] && front[j] == list[j]);
                }
            }
            assert(!sifted_out(before, last.index)) by {
                if sifted_out(before, last.index) {
                    let i = choose|i: int|
                        0 <= i < front.len() && (#[trigger] front[i]).index == last.index;
                    assert(list[i].index == last.index);
                }
            }
            assert forall|x: usize| #[trigger] sifted.kept.contains(x) implies
                !sifted.pruned.contains(x) by {
                assert(before.kept.contains(x) || x == last.index);
            }
        }
    }
}

/// A full list stays full, whatever it is offered.
pub proof fn lemma_selected_len<U: Unit>(
    near: spec_fn(usize, usize) -> U,
    capacity: nat,
    target: usize,
    candidates: Seq<usize>,
)
    requires
        candidates.len() > capacity,
    ensures
        selected(near, capacity, target, candidates).len() == capacity,
{
    let list = ranked(measured(near, target, candidates));
    lemma_ranked(measured(near, target, candidates));
    lemma_sift(near, capacity, list);
}

/// Links are selected from the candidates.
pub proof fn lemma_selected_from<U: Unit>(
    near: spec_fn(usize, usize) -> U,
    capacity: nat,
    target: usize,
    candidates: Seq<usize>,
)
    ensures
        forall|i: int|
            0 <= i < selected(near, capacity, target, candidates).len() ==> candidates.contains(
                #[trigger] selected(near, capacity, target, candidates)[i],
            ),
        candidates.no_duplicates() ==> selected(
            near,
            capacity,
            target,
            candidates,
        ).no_duplicates(),
{
    let all = measured(near, target, candidates);
    let list = ranked(all);
    let sifted = sift(near, capacity, list);
    let links = selected(near, capacity, target, candidates);
    lemma_ranked(all);
    lemma_sift(near, capacity, list);
    assert forall|i: int| 0 <= i < links.len() implies candidates.contains(
        #[trigger] links[i],
    ) by {
        let x = links[i];
        if i < sifted.kept.len() {
            assert(sifted.kept[i] == x);
        } else {
            assert(sifted.pruned[i - sifted.kept.len()] == x);
        }
        assert(sifted_out(sifted, x));
        let j = choose|j: int| 0 <= j < list.len() && (#[trigger] list[j]).index == x;
        assert(all.contains(list[j]));
        let k = all.index_of(list[j]);
        assert(candidates[k] == x);
    }
    if candidates.no_duplicates() {
        assert(distinct(all));
        lemma_ranked_distinct(all);
        assert forall|i: int, j: int| 0 <= i < links.len() && 0 <= j < links.len() && i
            != j implies links[i] != links[j] by {
            let split = sifted.kept.len() as int;
            if i < split && j >= split {
                assert(sifted.kept[i] == links[i]);
                assert(sifted.kept.contains(links[i]));
                assert(sifted.pruned[j - split] == links[j]);
            } else if j < split && i >= split {
                assert(sifted.kept[j] == links[j]);
                assert(sifted.kept.contains(links[j]));
                assert(sifted.pruned[i - split] == links[i]);
            } else if i < split {
                assert(sifted.kept[i] == links[i] && sifted.kept[j] == links[j]);
            } else {
                assert(sifted.pruned[i - split] == links[i]);
                assert(sifted.pruned[j - split] == links[j]);
            }
        }
    }
}

/// Nothing of a list is kept twice, and nothing is kept but what was there or the
/// newcomer. A list with room grows by one, and a full one stays full.
pub proof fn lemma_adopted<U: Unit>(
    near: spec_fn(usize, usize) -> U,
    capacity: nat,
    target: usize,
    links: Seq<usize>,
    newcomer: usize,
)
    requires
        links.len() <= capacity,
    ensures
        ({
            let after = adopted(near, capacity, target, links, newcomer);
            &&& after.len() == if links.len() < capacity {
                links.len() + 1
            } else {
                capacity
            }
            &&& forall|i: int|
                0 <= i < after.len() ==> links.contains(#[trigger] after[i]) || after[i]
                    == newcomer
            &&& links.no_duplicates() && !links.contains(newcomer) ==> after.no_duplicates()
        }),
{
    let offered = links.push(newcomer);
    let after = adopted(near, capacity, target, links, newcomer);
    if links.len() >= capacity {
        lemma_selected_len(near, capacity, target, offered);
        lemma_selected_from(near, capacity, target, offered);
    }
    assert forall|i: int| 0 <= i < after.len() implies links.contains(#[trigger] after[i])
        || after[i] == newcomer by {
        assert(offered.contains(after[i])) by {
            if links.len() < capacity {
                assert(offered[i] == after[i]);
            }
        }
        let k = offered.index_of(after[i]);
        if k < links.len() {
            assert(links[k] == after[i]);
        }
    }
}

/// What was kept before it was filled up leads in directions of its own: each link
/// is closer to the target than to any link kept ahead of it.
pub proof fn law_kept_links_are_diverse<U: Unit>(
    near: spec_fn(usize, usize) -> U,
    capacity: nat,
    target: usize,
    list: Seq<Neighbor<U>>,
)
    requires
        forall|i: int|
            0 <= i < list.len() ==> (#[trigger] list[i]).distance == near(target, list[i].index),
    ensures
        ({
            let kept = sift(near, capacity, list).kept;
            forall|i: int, j: int|
                0 <= i < j < kept.len() ==> near(target, #[trigger] kept[j]).key() < near(
                    kept[j],
                    #[trigger] kept[i],
                ).key()
        }),
    decreases list.len(),
{
    if list.len() > 0 {
        let front = list.drop_last();
        assert forall|i: int| 0 <= i < front.len() implies (#[trigger] front[i]).distance == near(
            target,
            front[i].index,
        ) by {
            assert(front[i] == list[i]);
        }
        law_kept_links_are_diverse(near, capacity, target, front);
        assert(list[list.len() - 1] == list.last());
        let before = sift(near, capacity, front).kept;
        let kept = sift(near, capacity, list).kept;
        assert forall|i: int, j: int| 0 <= i < j < kept.len() implies near(
            target,
            #[trigger] kept[j],
        ).key() < near(kept[j], #[trigger] kept[i]).key() by {
            assert(before[i] == kept[i]);
            if j < before.len() {
                assert(before[j] == kept[j]);
            } else {
                assert(diverse(near, before, list.last()));
            }
        }
    }
}

/// The closest candidate is the first that is kept.
pub proof fn law_closest_candidate_is_kept<U: Unit>(
    near: spec_fn(usize, usize) -> U,
    capacity: nat,
    target: usize,
    candidates: Seq<usize>,
)
    requires
        capacity > 0,
        candidates.len() > 0,
    ensures
        ({
            let links = selected(near, capacity, target, candidates);
            &&& links.len() > 0
            &&& candidates.contains(links[0])
            &&& forall|i: int|
                0 <= i < candidates.len() ==> near(target, links[0]).key() <= near(
                    target,
                    #[trigger] candidates[i],
                ).key()
        }),
{
    broadcast use vstd::seq_lib::to_multiset_contains;

    let all = measured(near, target, candidates);
    let list = ranked(all);
    lemma_ranked(all);
    lemma_sift_first(near, capacity, list);
    let links = selected(near, capacity, target, candidates);
    assert(links[0] == list[0].index);
    assert(all.contains(list[0]));
    let origin = all.index_of(list[0]);
    assert(all[origin] == list[0]);
    assert(candidates[origin] == links[0]);
    assert forall|i: int| 0 <= i < candidates.len() implies near(target, links[0]).key() <= near(
        target,
        #[trigger] candidates[i],
    ).key() by {
        assert(all.contains(all[i]));
        assert(list.to_multiset().count(all[i]) > 0);
        let place = list.index_of(all[i]);
        assert(list[place] == all[i]);
        if place > 0 {
            assert(list[0].distance.key() <= list[place].distance.key());
        }
    }
}

/// Whether a candidate was kept, or was pruned because of something kept that is no
/// farther from the target, or came too late.
spec fn accounted<U: Unit>(
    near: spec_fn(usize, usize) -> U,
    capacity: nat,
    target: usize,
    sifted: Sifted,
    candidate: usize,
) -> bool {
    ||| sifted.kept.contains(candidate)
    ||| sifted.pruned.contains(candidate) && exists|j: int|
        0 <= j < sifted.kept.len() && near(candidate, #[trigger] sifted.kept[j]).key() <= near(
            target,
            candidate,
        ).key() && near(target, sifted.kept[j]).key() <= near(target, candidate).key()
    ||| sifted.kept.len() == capacity && (forall|j: int|
        0 <= j < sifted.kept.len() ==> near(target, #[trigger] sifted.kept[j]).key() <= near(
            target,
            candidate,
        ).key())
}

/// Sifting an ascending list leaves ascending lists, and accounts for every candidate.
proof fn lemma_sift_accounts<U: Unit>(
    near: spec_fn(usize, usize) -> U,
    capacity: nat,
    target: usize,
    list: Seq<Neighbor<U>>,
)
    requires
        sorted(list),
        forall|i: int|
            0 <= i < list.len() ==> (#[trigger] list[i]).distance == near(target, list[i].index),
    ensures
        ({
            let sifted = sift(near, capacity, list);
            &&& forall|i: int, j: int|
                0 <= i < j < sifted.kept.len() ==> near(target, #[trigger] sifted.kept[i]).key()
                    <= near(target, #[trigger] sifted.kept[j]).key()
            &&& forall|i: int, j: int|
                0 <= i < j < sifted.pruned.len() ==> near(
                    target,
                    #[trigger] sifted.pruned[i],
                ).key() <= near(target, #[trigger] sifted.pruned[j]).key()
            &&& list.len() > 0 ==> forall|i: int|
                0 <= i < sifted.kept.len() ==> near(target, #[trigger] sifted.kept[i]).key()
                    <= list.last().distance.key()
            &&& list.len() > 0 ==> forall|i: int|
                0 <= i < sifted.pruned.len() ==> near(target, #[trigger] sifted.pruned[i]).key()
                    <= list.last().distance.key()
            &&& forall|i: int|
                0 <= i < list.len() ==> accounted(
                    near,
                    capacity,
                    target,
                    sifted,
                    (#[trigger] list[i]).index,
                )
        }),
    decreases list.len(),
{
    if list.len() > 0 {
        let front = list.drop_last();
        let last = list.last();
        assert(list[list.len() - 1] == last);
        assert(sorted(front)) by {
            assert forall|i: int, j: int| 0 <= i < j < front.len() implies (
            #[trigger] front[i]).distance.key() <= (#[trigger] front[j]).distance.key() by {
                assert(front[i] == list[i] && front[j] == list[j]);
            }
        }
        assert forall|i: int| 0 <= i < front.len() implies (#[trigger] front[i]).distance == near(
            target,
            front[i].index,
        ) by {
            assert(front[i] == list[i]);
        }
        lemma_sift_accounts(near, capacity, target, front);
        lemma_sift(near, capacity, front);
        let before = sift(near, capacity, front);
        let sifted = sift(near, capacity, list);
        if front.len() > 0 {
            assert(front.last() == list[list.len() - 2]);
            assert(front.last().distance.key() <= last.distance.key());
        }
        assert forall|i: int, j: int| 0 <= i < j < sifted.kept.len() implies near(
            target,
            #[trigger] sifted.kept[i],
        ).key() <= near(target, #[trigger] sifted.kept[j]).key() by {
            assert(before.kept[i] == sifted.kept[i]);
            if j < before.kept.len() {
                assert(before.kept[j] == sifted.kept[j]);
            }
        }
        assert forall|i: int, j: int| 0 <= i < j < sifted.pruned.len() implies near(
            target,
            #[trigger] sifted.pruned[i],
        ).key() <= near(target, #[trigger] sifted.pruned[j]).key() by {
            assert(before.pruned[i] == sifted.pruned[i]);
            if j < before.pruned.len() {
                assert(before.pruned[j] == sifted.pruned[j]);
            }
        }
        assert forall|i: int| 0 <= i < sifted.kept.len() implies near(
            target,
            #[trigger] sifted.kept[i],
        ).key() <= last.distance.key() by {
            if i < before.kept.len() {
                assert(before.kept[i] == sifted.kept[i]);
            }
        }
        assert forall|i: int| 0 <= i < sifted.pruned.len() implies near(
            target,
            #[trigger] sifted.pruned[i],
        ).key() <= last.distance.key() by {
            if i < before.pruned.len() {
                assert(before.pruned[i] == sifted.pruned[i]);
            }
        }
        assert forall|i: int| 0 <= i < list.len() implies accounted(
            near,
            capacity,
            target,
            sifted,
            (#[trigger] list[i]).index,
        ) by {
            let c = list[i].index;
            if i < front.len() {
                assert(front[i] == list[i]);
                assert(accounted(near, capacity, target, before, c));
                if before.kept.contains(c) {
                    assert(sifted.kept[before.kept.index_of(c)] == c);
                } else if before.kept.len() != capacity {
                    assert(before.pruned.contains(c));
                    assert(sifted.pruned[before.pruned.index_of(c)] == c);
                    let j = choose|j: int|
                        0 <= j < before.kept.len() && near(c, #[trigger] before.kept[j]).key()
                            <= near(target, c).key() && near(target, before.kept[j]).key()
                            <= near(target, c).key();
                    assert(sifted.kept[j] == before.kept[j]);
                }
            } else if before.kept.len() != capacity {
                if diverse(near, before.kept, last) {
                    assert(sifted.kept.last() == c);
                } else {
                    assert(sifted.pruned.last() == c);
                    let j = choose|j: int|
                        0 <= j < before.kept.len() && !(last.distance.key() < near(
                            last.index,
                            #[trigger] before.kept[j],
                        ).key());
                    assert(sifted.kept[j] == before.kept[j]);
                }
            }
        }
    }
}

/// What the selection is for. The links that are kept fall into those that lead in
/// directions of their own, whose number is returned, and those that fill the list up.
///
/// - Each of the first is closer to the target than to any ahead of it.
/// - A candidate that is not among them is no closer to the target than to one of them,
///   which is no farther from the target, unless the list is full of them and all are
///   no farther.
/// - Both parts are ascending, the list is filled up as far as there are candidates, and
///   what was left out of the second part is no closer than anything in it.
pub proof fn law_selection_covers_every_direction<U: Unit>(
    near: spec_fn(usize, usize) -> U,
    capacity: nat,
    target: usize,
    candidates: Seq<usize>,
) -> (count: nat)
    ensures
        ({
            let links = selected(near, capacity, target, candidates);
            &&& count <= links.len()
            &&& links.len() == capacity || links.len() == candidates.len() && links.len()
                < capacity
            &&& forall|i: int| 0 <= i < links.len() ==> candidates.contains(#[trigger] links[i])
            &&& forall|i: int, j: int|
                0 <= i < j < count ==> near(target, #[trigger] links[i]).key() <= near(
                    target,
                    #[trigger] links[j],
                ).key() && near(target, links[j]).key() < near(links[j], links[i]).key()
            &&& forall|i: int, j: int|
                count <= i < j < links.len() ==> near(target, #[trigger] links[i]).key() <= near(
                    target,
                    #[trigger] links[j],
                ).key()
            &&& forall|i: int|
                0 <= i < candidates.len() ==> {
                    let c = #[trigger] candidates[i];
                    ||| exists|j: int| 0 <= j < count && #[trigger] links[j] == c
                    ||| exists|j: int|
                        0 <= j < count && near(c, #[trigger] links[j]).key() <= near(
                            target,
                            c,
                        ).key() && near(target, links[j]).key() <= near(target, c).key()
                    ||| count == capacity && forall|j: int|
                        0 <= j < count ==> near(target, #[trigger] links[j]).key() <= near(
                            target,
                            c,
                        ).key()
                }
            &&& forall|i: int|
                0 <= i < candidates.len() && !links.contains(#[trigger] candidates[i]) ==> (
                forall|j: int|
                    count <= j < links.len() ==> near(target, #[trigger] links[j]).key() <= near(
                        target,
                        candidates[i],
                    ).key())
        }),
{
    broadcast use vstd::seq_lib::to_multiset_contains;

    let all = measured(near, target, candidates);
    let list = ranked(all);
    let sifted = sift(near, capacity, list);
    let links = selected(near, capacity, target, candidates);
    let count = sifted.kept.len();
    lemma_ranked(all);
    lemma_sift(near, capacity, list);
    lemma_selected_from(near, capacity, target, candidates);
    assert forall|i: int| 0 <= i < list.len() implies (#[trigger] list[i]).distance == near(
        target,
        list[i].index,
    ) by {
        assert(all.contains(list[i]));
        let k = all.index_of(list[i]);
        assert(all[k] == list[i]);
    }
    lemma_sift_accounts(near, capacity, target, list);
    law_kept_links_are_diverse(near, capacity, target, list);
    assert forall|i: int| 0 <= i < count implies #[trigger] links[i] == sifted.kept[i] by {}
    assert forall|i: int| count <= i < links.len() implies #[trigger] links[i]
        == sifted.pruned[i - count] by {}
    assert forall|i: int, j: int| 0 <= i < j < count implies near(
        target,
        #[trigger] links[i],
    ).key() <= near(target, #[trigger] links[j]).key() && near(target, links[j]).key() < near(
        links[j],
        links[i],
    ).key() by {
        assert(links[i] == sifted.kept[i] && links[j] == sifted.kept[j]);
    }
    assert forall|i: int, j: int| count <= i < j < links.len() implies near(
        target,
        #[trigger] links[i],
    ).key() <= near(target, #[trigger] links[j]).key() by {
        assert(links[i] == sifted.pruned[i - count] && links[j] == sifted.pruned[j - count]);
    }
    assert forall|i: int| 0 <= i < candidates.len() implies accounted(
        near,
        capacity,
        target,
        sifted,
        #[trigger] candidates[i],
    ) by {
        assert(all.contains(all[i]));
        assert(list.to_multiset().count(all[i]) > 0);
        let k = list.index_of(all[i]);
        assert(list[k] == all[i]);
        assert(accounted(near, capacity, target, sifted, list[k].index));
    }
    assert forall|i: int| 0 <= i < candidates.len() implies {
        let c = #[trigger] candidates[i];
        ||| exists|j: int| 0 <= j < count && #[trigger] links[j] == c
        ||| exists|j: int|
            0 <= j < count && near(c, #[trigger] links[j]).key() <= near(target, c).key() && near(
                target,
                links[j],
            ).key() <= near(target, c).key()
        ||| count == capacity && forall|j: int|
            0 <= j < count ==> near(target, #[trigger] links[j]).key() <= near(target, c).key()
    } by {
        let c = candidates[i];
        assert(accounted(near, capacity, target, sifted, c));
        if sifted.kept.contains(c) {
            let j = sifted.kept.index_of(c);
            assert(links[j] == c);
        } else if sifted.pruned.contains(c) && exists|j: int|
            0 <= j < sifted.kept.len() && near(c, #[trigger] sifted.kept[j]).key() <= near(
                target,
                c,
            ).key() && near(target, sifted.kept[j]).key() <= near(target, c).key() {
            let j = choose|j: int|
                0 <= j < sifted.kept.len() && near(c, #[trigger] sifted.kept[j]).key() <= near(
                    target,
                    c,
                ).key() && near(target, sifted.kept[j]).key() <= near(target, c).key();
            assert(links[j] == sifted.kept[j]);
        } else {
            assert forall|j: int| 0 <= j < count implies near(target, #[trigger] links[j]).key()
                <= near(target, c).key() by {
                assert(links[j] == sifted.kept[j]);
            }
        }
    }
    assert forall|i: int|
        0 <= i < candidates.len() && !links.contains(#[trigger] candidates[i]) implies (
    forall|j: int|
        count <= j < links.len() ==> near(target, #[trigger] links[j]).key() <= near(
            target,
            candidates[i],
        ).key()) by {
        let c = candidates[i];
        assert(accounted(near, capacity, target, sifted, c));
        if sifted.kept.contains(c) {
            assert(links[sifted.kept.index_of(c)] == c);
        } else if sifted.pruned.contains(c) {
            let k = sifted.pruned.index_of(c);
            if count + k < links.len() {
                assert(links[count + k] == c);
            }
            assert forall|j: int| count <= j < links.len() implies near(
                target,
                #[trigger] links[j],
            ).key() <= near(target, c).key() by {
                assert(links[j] == sifted.pruned[j - count]);
                assert(sifted.pruned[k] == c);
            }
        }
    }
    count
}

/// A candidate that is closer to the target than to every other candidate keeps its
/// link, so that what lies apart from a cluster stays in reach. It gives way only to a
/// full list of such links, none of which is farther.
pub proof fn law_lone_candidates_keep_their_links<U: Unit>(
    near: spec_fn(usize, usize) -> U,
    capacity: nat,
    target: usize,
    candidates: Seq<usize>,
    lone: usize,
)
    requires
        candidates.contains(lone),
        forall|i: int|
            0 <= i < candidates.len() && #[trigger] candidates[i] != lone ==> near(
                target,
                lone,
            ).key() < near(lone, candidates[i]).key(),
    ensures
        ({
            let links = selected(near, capacity, target, candidates);
            links.contains(lone) || links.len() == capacity && forall|i: int, j: int|
                0 <= i < j < links.len() ==> near(target, #[trigger] links[i]).key() <= near(
                    target,
                    #[trigger] links[j],
                ).key() && near(target, links[j]).key() < near(links[j], links[i]).key() && near(
                    target,
                    links[j],
                ).key() <= near(target, lone).key()
        }),
{
    let links = selected(near, capacity, target, candidates);
    let count = law_selection_covers_every_direction(near, capacity, target, candidates);
    let i = candidates.index_of(lone);
    assert(candidates[i] == lone);
    if !links.contains(lone) && exists|j: int|
        0 <= j < count && near(lone, #[trigger] links[j]).key() <= near(target, lone).key()
            && near(target, links[j]).key() <= near(target, lone).key() {
        let j = choose|j: int|
            0 <= j < count && near(lone, #[trigger] links[j]).key() <= near(target, lone).key()
                && near(target, links[j]).key() <= near(target, lone).key();
        assert(links.contains(links[j]));
        assert(candidates.contains(links[j]));
        let k = candidates.index_of(links[j]);
        assert(candidates[k] != lone);
    }
}

proof fn lemma_sift_first<U: Unit>(
    near: spec_fn(usize, usize) -> U,
    capacity: nat,
    list: Seq<Neighbor<U>>,
)
    requires
        capacity > 0,
        list.len() > 0,
    ensures
        sift(near, capacity, list).kept.len() > 0,
        sift(near, capacity, list).kept[0] == list[0].index,
    decreases list.len(),
{
    let front = list.drop_last();
    if front.len() > 0 {
        lemma_sift_first(near, capacity, front);
        assert(front[0] == list[0]);
    } else {
        assert(sift(near, capacity, front).kept =~= Seq::empty());
    }
}

/// Puts a node where it belongs in an ascending list.
fn insert_ranked<U: Unit>(list: &mut Vec<Neighbor<U>>, node: Neighbor<U>)
    requires
        sorted(old(list)@),
    ensures
        final(list)@ == old(list)@.insert(rank(old(list)@, node.distance) as int, node),
{
    proof {
        lemma_rank(list@, node.distance);
    }
    let place: usize = place_of(list, node.distance);
    list.insert(place, node);
}

impl<'a, T, Met: Metric<T>, S: FeatureStore<T>> Probe<'a, Met, T, S> {
    /// The distance between nodes of a layer while the probe's point is put behind
    /// its last node.
    pub open spec fn between(self, ids: Seq<usize>) -> spec_fn(usize, usize) -> Met::Unit {
        link_distance(*self.metric, self.features.features(), ids, *self.point)
    }

    /// The feature of the node at `index`, which is the probe's point at `fresh`.
    fn feature_of<L: Layer>(&self, layer: &L, fresh: usize, index: usize) -> (feature: &T)
        requires
            self.measures(layer.layer().ids),
            fresh == layer.layer().ids.len(),
            index <= fresh,
        ensures
            *feature == feature_at(
                self.features.features(),
                layer.layer().ids,
                *self.point,
                index,
            ),
    {
        if index == fresh {
            self.point
        } else {
            self.features.get_feature(layer.id(index))
        }
    }

    /// Whether a candidate is closer to its target than to anything kept.
    fn is_diverse<L: Layer>(
        &self,
        layer: &L,
        fresh: usize,
        kept: &Vec<usize>,
        candidate: Neighbor<Met::Unit>,
    ) -> (holds: bool)
        requires
            self.measures(layer.layer().ids),
            fresh == layer.layer().ids.len(),
            candidate.index <= fresh,
            forall|i: int| 0 <= i < kept@.len() ==> (#[trigger] kept@[i]) <= fresh,
        ensures
            holds == diverse(self.between(layer.layer().ids), kept@, candidate),
    {
        let feature = self.feature_of(layer, fresh, candidate.index);
        let mut i: usize = 0;
        while i < kept.len()
            invariant
                self.measures(layer.layer().ids),
                fresh == layer.layer().ids.len(),
                candidate.index <= fresh,
                forall|i: int| 0 <= i < kept@.len() ==> (#[trigger] kept@[i]) <= fresh,
                *feature == feature_at(
                    self.features.features(),
                    layer.layer().ids,
                    *self.point,
                    candidate.index,
                ),
                i <= kept@.len(),
                forall|j: int|
                    0 <= j < i ==> candidate.distance.key() < (self.between(layer.layer().ids))(
                        candidate.index,
                        #[trigger] kept@[j],
                    ).key(),
            decreases kept@.len() - i,
        {
            let apart = self.metric.distance(feature, self.feature_of(layer, fresh, kept[i]));
            if !candidate.distance.less(apart) {
                assert(apart == (self.between(layer.layer().ids))(
                    candidate.index,
                    kept@[i as int],
                ));
                return false;
            }
            i += 1;
        }
        true
    }

    /// The candidates of the node at `target`, in ascending order of distance: its
    /// links and the probe's point.
    fn rank_candidates<L: Layer>(&self, layer: &L, fresh: usize, target: usize) -> (list: Vec<
        Neighbor<Met::Unit>,
    >)
        requires
            self.measures(layer.layer().ids),
            fresh == layer.layer().ids.len(),
            target < fresh,
            target < layer.layer().links.len(),
            forall|i: int|
                0 <= i < layer.layer().links[target as int].len() ==> (
                #[trigger] layer.layer().links[target as int][i]) <= fresh,
        ensures
            list@ == ranked(
                measured(
                    self.between(layer.layer().ids),
                    target,
                    layer.layer().links[target as int].push(fresh),
                ),
            ),
    {
        let ghost near = self.between(layer.layer().ids);
        let links = layer.links(target);
        let ghost offered = links@.push(fresh);
        let ghost all = measured(near, target, offered);
        let feature = self.feature_of(layer, fresh, target);
        let mut list: Vec<Neighbor<Met::Unit>> = Vec::new();
        let mut i: usize = 0;
        assert(all.take(0) =~= Seq::empty());
        while i < links.len()
            invariant
                self.measures(layer.layer().ids),
                fresh == layer.layer().ids.len(),
                forall|i: int| 0 <= i < links@.len() ==> (#[trigger] links@[i]) <= fresh,
                near == self.between(layer.layer().ids),
                offered == links@.push(fresh),
                all == measured(near, target, offered),
                *feature == feature_at(
                    self.features.features(),
                    layer.layer().ids,
                    *self.point,
                    target,
                ),
                i <= links@.len(),
                list@ == ranked(all.take(i as int)),
            decreases links@.len() - i,
        {
            let index: usize = links[i];
            let distance = self.metric.distance(feature, self.feature_of(layer, fresh, index));
            proof {
                lemma_ranked(all.take(i as int));
                assert(all.take(i + 1).drop_last() =~= all.take(i as int));
                assert(all.take(i + 1).last() == all[i as int]);
            }
            insert_ranked(&mut list, Neighbor { index, distance });
            i += 1;
        }
        let distance = self.metric.distance(feature, self.point);
        proof {
            lemma_ranked(all.take(i as int));
            assert(all.drop_last() =~= all.take(i as int));
        }
        insert_ranked(&mut list, Neighbor { index: fresh, distance });
        list
    }

    /// The links of the node at `target` once it was offered the probe's point,
    /// which is put at `fresh`, behind the last node of the layer.
    pub fn adopt<L: Layer>(
        &self,
        layer: &L,
        fresh: usize,
        target: usize,
        capacity: usize,
    ) -> (links: Vec<usize>)
        requires
            self.measures(layer.layer().ids),
            fresh == layer.layer().ids.len(),
            target < fresh,
            target < layer.layer().links.len(),
            forall|i: int|
                0 <= i < layer.layer().links[target as int].len() ==> (
                #[trigger] layer.layer().links[target as int][i]) <= fresh,
            layer.layer().links[target as int].len() <= capacity,
        ensures
            links@ == adopted(
                self.between(layer.layer().ids),
                capacity as nat,
                target,
                layer.layer().links[target as int],
                fresh,
            ),
    {
        let ghost near = self.between(layer.layer().ids);
        let existing = layer.links(target);
        let mut kept: Vec<usize> = Vec::new();
        if existing.len() < capacity {
            let mut i: usize = 0;
            while i < existing.len()
                invariant
                    i <= existing@.len(),
                    kept@ == existing@.take(i as int),
                decreases existing@.len() - i,
            {
                kept.push(existing[i]);
                i += 1;
                assert(existing@.take(i as int) =~= existing@.take(i - 1).push(existing@[i - 1]));
            }
            kept.push(fresh);
            assert(existing@.take(i as int) =~= existing@);
            return kept;
        }
        let list = self.rank_candidates(layer, fresh, target);
        let ghost offered = existing@.push(fresh);
        let ghost all = measured(near, target, offered);
        proof {
            lemma_ranked(all);
            assert forall|i: int| 0 <= i < list@.len() implies (#[trigger] list@[i]).index
                <= fresh by {
                assert(all.contains(list@[i]));
                let origin = all.index_of(list@[i]);
                assert(all[origin].index == offered[origin]);
                if origin < existing@.len() {
                    assert(offered[origin] == layer.layer().links[target as int][origin]);
                }
            }
        }
        let mut pruned: Vec<usize> = Vec::new();
        let mut i: usize = 0;
        assert(list@.take(0) =~= Seq::empty());
        while i < list.len()
            invariant
                self.measures(layer.layer().ids),
                fresh == layer.layer().ids.len(),
                near == self.between(layer.layer().ids),
                forall|i: int| 0 <= i < list@.len() ==> (#[trigger] list@[i]).index <= fresh,
                forall|i: int| 0 <= i < kept@.len() ==> (#[trigger] kept@[i]) <= fresh,
                i <= list@.len(),
                (Sifted { kept: kept@, pruned: pruned@ }) == sift(
                    near,
                    capacity as nat,
                    list@.take(i as int),
                ),
            decreases list@.len() - i,
        {
            let candidate = list[i];
            proof {
                assert(list@.take(i + 1).drop_last() =~= list@.take(i as int));
                assert(list@.take(i + 1).last() == candidate);
            }
            if kept.len() != capacity {
                if self.is_diverse(layer, fresh, &kept, candidate) {
                    kept.push(candidate.index);
                } else {
                    pruned.push(candidate.index);
                }
            }
            i += 1;
        }
        proof {
            assert(list@.take(i as int) =~= list@);
            lemma_sift(near, capacity as nat, list@);
        }
        let ghost sifted = sift(near, capacity as nat, list@);
        let mut next: usize = 0;
        assert(kept@ =~= sifted.kept + pruned@.take(0));
        while next < pruned.len() && kept.len() < capacity
            invariant
                next <= pruned@.len(),
                sifted.pruned == pruned@,
                sifted.kept.len() <= capacity,
                kept@ == sifted.kept + pruned@.take(next as int),
                kept@.len() <= capacity,
            decreases pruned@.len() - next,
        {
            kept.push(pruned[next]);
            next += 1;
            assert(pruned@.take(next as int) =~= pruned@.take(next - 1).push(pruned@[next - 1]));
        }
        proof {
            let room = capacity - sifted.kept.len();
            if pruned@.len() <= room {
                assert(pruned@.take(next as int) =~= pruned@);
            } else {
                assert(next == room);
            }
        }
        kept
    }
}

} // verus!
