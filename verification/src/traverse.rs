//! The model of a search over one layer of the graph.
//!
//! A search keeps the closest nodes that it has found, the nodes that it has yet
//! to expand, and the ids that it has come upon. It differs from another one by
//! which of the waiting nodes it expands next: the one that was found last
//! ([`Beam::depth_first`]) or the closest ([`Beam::best_first`]).

use crate::metric::Neighbor;
use crate::ranking::{lemma_rank_unique, rank, ranked_insert};
use crate::unit::Unit;
use vstd::prelude::*;

verus! {

/// The nodes of one layer, by their index in it.
pub struct LayerView {
    /// The indices that each node links to.
    pub links: Seq<Seq<usize>>,
    /// The zero layer id of each node.
    pub ids: Seq<usize>,
}

impl LayerView {
    /// Every node has an id, and every link leads to a node.
    pub open spec fn closed(self) -> bool {
        &&& self.links.len() == self.ids.len()
        &&& forall|node: int, slot: int|
            0 <= node < self.links.len() && 0 <= slot < self.links[node].len() ==> (
            #[trigger] self.links[node][slot]) < self.ids.len()
    }
}

/// Where a search stands.
#[verifier::ext_equal]
pub struct Run<U> {
    /// The nodes to expand, in the order in which they were found.
    pub candidates: Seq<Neighbor<U>>,
    /// The closest nodes found, closest first.
    pub nearest: Seq<Neighbor<U>>,
    /// The ids that were come upon.
    pub seen: Set<usize>,
}

/// A search over one layer: where, from which query, for which nodes, and for how
/// many.
pub struct Beam<U> {
    /// The layer searched.
    pub layer: LayerView,
    /// The distance from the query to the node of an id.
    pub distance: spec_fn(usize) -> U,
    /// The ids that may be reported. The others are only passed through.
    pub accept: spec_fn(usize) -> bool,
    /// How many nodes are to be reported.
    pub width: nat,
}

/// Whether `a` is to be expanded ahead of `b`: it is closer, or as close and of a
/// smaller index.
pub open spec fn precedes<U: Unit>(a: Neighbor<U>, b: Neighbor<U>) -> bool {
    a.distance.key() < b.distance.key() || (a.distance.key() == b.distance.key() && a.index
        < b.index)
}

/// Whether `node` is one of the candidates and none of them precedes it.
pub open spec fn is_closest<U: Unit>(candidates: Seq<Neighbor<U>>, node: Neighbor<U>) -> bool {
    candidates.contains(node) && forall|i: int|
        0 <= i < candidates.len() ==> !precedes(#[trigger] candidates[i], node)
}

/// The candidate to expand first.
pub open spec fn closest<U: Unit>(candidates: Seq<Neighbor<U>>) -> Neighbor<U> {
    choose|node: Neighbor<U>| is_closest(candidates, node)
}

/// How many of the numbers below `limit` are not in the set.
pub open spec fn absent_below(seen: Set<usize>, limit: nat) -> nat
    decreases limit,
{
    if limit == 0 {
        0
    } else {
        let rest = absent_below(seen, (limit - 1) as nat);
        if seen.contains((limit - 1) as usize) {
            rest
        } else {
            rest + 1
        }
    }
}

/// How many ids a search can still come upon.
pub open spec fn unseen(seen: Set<usize>) -> nat {
    absent_below(seen, (usize::MAX + 1) as nat)
}

impl<U: Unit> Beam<U> {
    /// One link is followed. A node that was come upon before is passed over. One
    /// that would rank behind `width` closer nodes is dropped. Any other waits to
    /// be expanded, and is reported if it may be.
    pub open spec fn visit(self, run: Run<U>, link: usize) -> Run<U> {
        let id = self.layer.ids[link as int];
        let found = Neighbor { index: link, distance: (self.distance)(id) };
        if run.seen.contains(id) {
            run
        } else if rank(run.nearest, found.distance) == self.width {
            Run { candidates: run.candidates, nearest: run.nearest, seen: run.seen.insert(id) }
        } else {
            Run {
                candidates: run.candidates.push(found),
                nearest: if (self.accept)(id) {
                    ranked_insert(run.nearest, found, self.width)
                } else {
                    run.nearest
                },
                seen: run.seen.insert(id),
            }
        }
    }

    /// Links are followed, one after the other.
    pub open spec fn expand(self, run: Run<U>, links: Seq<usize>) -> Run<U>
        decreases links.len(),
    {
        if links.len() == 0 {
            run
        } else {
            self.visit(self.expand(run, links.drop_last()), links.last())
        }
    }

    /// The candidate at `position` is taken out and its links are followed.
    pub open spec fn step(self, run: Run<U>, position: int) -> Run<U> {
        self.expand(
            Run {
                candidates: run.candidates.remove(position),
                nearest: run.nearest,
                seen: run.seen,
            },
            self.layer.links[run.candidates[position].index as int],
        )
    }

    /// The search that expands what it found last, until nothing waits.
    pub open spec fn depth_first(self, run: Run<U>) -> Run<U>
        decreases unseen(run.seen), run.candidates.len(),
    {
        if run.candidates.len() == 0 {
            run
        } else {
            proof {
                self.lemma_step_descends(run, run.candidates.len() - 1);
            }
            self.depth_first(self.step(run, run.candidates.len() - 1))
        }
    }

    /// Whether nothing that waits can improve a full list: its last is closer than
    /// the closest candidate.
    pub open spec fn saturated(self, run: Run<U>) -> bool {
        run.nearest.len() == self.width && run.nearest.len() > 0
            && run.nearest.last().distance.key() < closest(run.candidates).distance.key()
    }

    /// The search that expands the closest candidate, until nothing waits or
    /// nothing that waits can improve the list.
    pub open spec fn best_first(self, run: Run<U>) -> Run<U>
        decreases unseen(run.seen), run.candidates.len(),
    {
        if run.candidates.len() == 0 || self.saturated(run) {
            run
        } else {
            proof {
                lemma_closest(run.candidates);
                self.lemma_step_descends(
                    run,
                    run.candidates.index_of(closest(run.candidates)),
                );
            }
            self.best_first(self.step(run, run.candidates.index_of(closest(run.candidates))))
        }
    }

    /// What may not be reported is taken off the list. It still waits to be
    /// expanded if it did.
    pub open spec fn scrub(self, run: Run<U>) -> Run<U> {
        Run {
            nearest: run.nearest.filter(
                |node: Neighbor<U>| (self.accept)(self.layer.ids[node.index as int]),
            ),
            ..run
        }
    }

    /// Following links either comes upon an id or changes nothing.
    pub proof fn lemma_expand_descends(self, run: Run<U>, links: Seq<usize>)
        ensures
            ({
                let after = self.expand(run, links);
                after == run || unseen(after.seen) < unseen(run.seen)
            }),
            run.seen.subset_of(self.expand(run, links).seen),
        decreases links.len(),
    {
        if links.len() > 0 {
            self.lemma_expand_descends(run, links.drop_last());
            let before = self.expand(run, links.drop_last());
            let id = self.layer.ids[links.last() as int];
            if !before.seen.contains(id) {
                lemma_unseen_insert(before.seen, id);
            }
        }
    }

    /// A step leaves fewer ids to come upon, or as many and fewer candidates.
    pub proof fn lemma_step_descends(self, run: Run<U>, position: int)
        requires
            0 <= position < run.candidates.len(),
        ensures
            ({
                let after = self.step(run, position);
                unseen(after.seen) < unseen(run.seen) || (unseen(after.seen) == unseen(run.seen)
                    && after.candidates.len() < run.candidates.len())
            }),
    {
        let popped = Run {
            candidates: run.candidates.remove(position),
            nearest: run.nearest,
            seen: run.seen,
        };
        self.lemma_expand_descends(
            popped,
            self.layer.links[run.candidates[position].index as int],
        );
    }
}

proof fn lemma_absent_below_insert(seen: Set<usize>, id: usize, limit: nat)
    requires
        limit <= usize::MAX + 1,
        !seen.contains(id),
    ensures
        absent_below(seen, limit) == absent_below(seen.insert(id), limit) + if id < limit {
            1nat
        } else {
            0nat
        },
    decreases limit,
{
    if limit > 0 {
        lemma_absent_below_insert(seen, id, (limit - 1) as nat);
    }
}

/// Coming upon an id leaves one fewer.
pub proof fn lemma_unseen_insert(seen: Set<usize>, id: usize)
    requires
        !seen.contains(id),
    ensures
        unseen(seen.insert(id)) < unseen(seen),
{
    lemma_absent_below_insert(seen, id, (usize::MAX + 1) as nat);
}

/// Whether two runs are the same but for the order in which their candidates wait.
pub open spec fn same_but_order<U>(a: Run<U>, b: Run<U>) -> bool {
    &&& a.candidates.to_multiset() == b.candidates.to_multiset()
    &&& a.nearest == b.nearest
    &&& a.seen == b.seen
}

/// The candidate to expand first does not depend on the order in which they wait.
pub proof fn lemma_closest_unordered<U: Unit>(a: Seq<Neighbor<U>>, b: Seq<Neighbor<U>>)
    requires
        a.len() > 0,
        a.to_multiset() == b.to_multiset(),
    ensures
        a.len() == b.len(),
        closest(a) == closest(b),
{
    broadcast use {vstd::seq_lib::to_multiset_contains, vstd::seq_lib::to_multiset_len};

    assert(a.len() == a.to_multiset().len());
    assert(b.len() == b.to_multiset().len());
    lemma_closest(a);
    lemma_closest(b);
    let node = closest(a);
    assert(b.to_multiset().count(node) > 0);
    assert forall|i: int| 0 <= i < b.len() implies !precedes(#[trigger] b[i], node) by {
        assert(b.contains(b[i]));
        assert(a.to_multiset().count(b[i]) > 0);
        assert(a[a.index_of(b[i])] == b[i]);
    }
    assert(is_closest(b, node));
}

/// Where something waits, there is exactly one candidate to expand first.
pub proof fn lemma_closest<U: Unit>(candidates: Seq<Neighbor<U>>)
    requires
        candidates.len() > 0,
    ensures
        is_closest(candidates, closest(candidates)),
        forall|node: Neighbor<U>| is_closest(candidates, node) ==> node == closest(candidates),
    decreases candidates.len(),
{
    let rest = candidates.drop_last();
    let last = candidates.last();
    assert(candidates[candidates.len() - 1] == last);
    if rest.len() == 0 {
        assert(is_closest(candidates, last));
    } else {
        lemma_closest(rest);
        let best = closest(rest);
        let position = rest.index_of(best);
        assert(candidates[position] == best);
        let winner = if precedes(last, best) {
            last
        } else {
            best
        };
        assert forall|i: int| 0 <= i < candidates.len() implies !precedes(
            #[trigger] candidates[i],
            winner,
        ) by {
            if i < rest.len() {
                assert(candidates[i] == rest[i]);
            }
        }
        assert(is_closest(candidates, winner));
    }
    assert forall|node: Neighbor<U>| is_closest(candidates, node) implies node == closest(
        candidates,
    ) by {
        let other = closest(candidates);
        assert(candidates[candidates.index_of(node)] == node);
        assert(candidates[candidates.index_of(other)] == other);
        node.distance.lemma_key_injective(other.distance);
    }
}

impl<U: Unit> Beam<U> {
    /// What becomes of a link. `place` is where its node belongs among those found: all
    /// ahead of it are no farther, and all from it on are farther.
    ///
    /// A node that was come upon before changes nothing. Any other is come upon now. It
    /// is dropped if exactly `width` nodes are no farther, waits to be expanded
    /// otherwise, and then is put in its place if it may be reported, where the last of
    /// a full list makes room.
    pub proof fn law_links_are_weighed(self, run: Run<U>, link: usize, place: int)
        requires
            0 <= place <= run.nearest.len(),
            forall|i: int|
                0 <= i < place ==> (#[trigger] run.nearest[i]).distance.key() <= (self.distance)(
                    self.layer.ids[link as int],
                ).key(),
            forall|i: int|
                place <= i < run.nearest.len() ==> (self.distance)(
                    self.layer.ids[link as int],
                ).key() < (#[trigger] run.nearest[i]).distance.key(),
        ensures
            ({
                let id = self.layer.ids[link as int];
                let found = Neighbor { index: link, distance: (self.distance)(id) };
                let after = self.visit(run, link);
                &&& run.seen.contains(id) ==> after == run
                &&& !run.seen.contains(id) ==> {
                    &&& after.seen == run.seen.insert(id)
                    &&& place == self.width ==> after.candidates == run.candidates
                        && after.nearest == run.nearest
                    &&& place != self.width ==> after.candidates == run.candidates.push(found)
                    &&& place != self.width && !(self.accept)(id) ==> after.nearest == run.nearest
                    &&& place != self.width && (self.accept)(id) && run.nearest.len()
                        != self.width ==> after.nearest == run.nearest.insert(place, found)
                    &&& place != self.width && (self.accept)(id) && run.nearest.len()
                        == self.width ==> after.nearest == run.nearest.drop_last().insert(
                        place,
                        found,
                    )
                }
            }),
    {
        lemma_rank_unique(run.nearest, (self.distance)(self.layer.ids[link as int]), place);
    }

    /// Links are followed one by one, first to last, each from where the one ahead of it
    /// left the search. To follow some and then others is to follow them all.
    pub proof fn law_links_are_followed_in_order(
        self,
        run: Run<U>,
        links: Seq<usize>,
        more: Seq<usize>,
    )
        ensures
            self.expand(run, Seq::empty()) == run,
            more.len() == 1 ==> self.expand(run, more) == self.visit(run, more[0]),
            self.expand(run, links + more) == self.expand(self.expand(run, links), more),
        decreases more.len(),
    {
        if more.len() == 0 {
            assert(links + more =~= links);
        } else {
            self.law_links_are_followed_in_order(run, links, more.drop_last());
            assert((links + more).drop_last() =~= links + more.drop_last());
            if more.len() == 1 {
                assert(more.drop_last() =~= Seq::empty());
            }
        }
    }

    /// A candidate that is expanded no longer waits, and every link of it is followed,
    /// first to last.
    pub proof fn law_expansion_follows_every_link(self, run: Run<U>, position: int)
        requires
            0 <= position < run.candidates.len(),
        ensures
            ({
                let popped = Run { candidates: run.candidates.remove(position), ..run };
                let links = self.layer.links[run.candidates[position].index as int];
                let after = self.step(run, position);
                &&& after == self.expand(popped, links)
                &&& forall|slot: int|
                    0 <= slot < links.len() ==> after.seen.contains(
                        self.layer.ids[(#[trigger] links[slot]) as int],
                    )
                &&& forall|id: usize| #[trigger]
                    after.seen.contains(id) ==> run.seen.contains(id) || exists|slot: int|
                        0 <= slot < links.len() && self.layer.ids[(
                        #[trigger] links[slot]) as int] == id
            }),
    {
        self.lemma_expansion_seen(
            Run { candidates: run.candidates.remove(position), ..run },
            self.layer.links[run.candidates[position].index as int],
        );
    }

    proof fn lemma_expansion_seen(self, run: Run<U>, links: Seq<usize>)
        ensures
            ({
                let after = self.expand(run, links);
                &&& forall|slot: int|
                    0 <= slot < links.len() ==> after.seen.contains(
                        self.layer.ids[(#[trigger] links[slot]) as int],
                    )
                &&& forall|id: usize| #[trigger]
                    after.seen.contains(id) ==> run.seen.contains(id) || exists|slot: int|
                        0 <= slot < links.len() && self.layer.ids[(
                        #[trigger] links[slot]) as int] == id
            }),
        decreases links.len(),
    {
        if links.len() > 0 {
            let front = links.drop_last();
            let before = self.expand(run, front);
            let after = self.expand(run, links);
            self.lemma_expansion_seen(run, front);
            assert(links[links.len() - 1] == links.last());
            assert forall|slot: int| 0 <= slot < links.len() implies after.seen.contains(
                self.layer.ids[(#[trigger] links[slot]) as int],
            ) by {
                if slot < front.len() {
                    assert(front[slot] == links[slot]);
                }
            }
            assert forall|id: usize| #[trigger] after.seen.contains(id) implies run.seen.contains(
                id,
            ) || exists|slot: int|
                0 <= slot < links.len() && self.layer.ids[(#[trigger] links[slot]) as int] == id by {
                if before.seen.contains(id) {
                    if !run.seen.contains(id) {
                        let slot = choose|slot: int|
                            0 <= slot < front.len() && self.layer.ids[(
                            #[trigger] front[slot]) as int] == id;
                        assert(links[slot] == front[slot]);
                    }
                }
            }
        }
    }

    /// A depth-first search goes on as long as something waits, with what was found
    /// last, and ends with nothing waiting.
    pub proof fn law_depth_first_takes_the_last(self, run: Run<U>)
        ensures
            run.candidates.len() == 0 ==> self.depth_first(run) == run,
            run.candidates.len() > 0 ==> self.depth_first(run) == self.depth_first(
                self.step(run, run.candidates.len() - 1),
            ),
            self.depth_first(run).candidates.len() == 0,
        decreases unseen(run.seen), run.candidates.len(),
    {
        if run.candidates.len() > 0 {
            self.lemma_step_descends(run, run.candidates.len() - 1);
            self.law_depth_first_takes_the_last(self.step(run, run.candidates.len() - 1));
        }
    }

    /// A best-first search goes on with the closest of what waits, the smaller index
    /// first where two are as close. It is over if nothing waits, or if the list is full
    /// and everything that waits is farther than everything on it.
    pub proof fn law_best_first_takes_the_closest(self, run: Run<U>, position: int)
        requires
            self.width > 0,
            0 <= position < run.candidates.len(),
            run.candidates.no_duplicates(),
            forall|i: int|
                0 <= i < run.candidates.len() ==> run.candidates[position].distance.key() < (
                #[trigger] run.candidates[i]).distance.key() || (
                run.candidates[position].distance.key() == run.candidates[i].distance.key()
                    && run.candidates[position].index <= run.candidates[i].index),
        ensures
            run.nearest.len() == self.width && run.nearest.last().distance.key()
                < run.candidates[position].distance.key() ==> self.best_first(run) == run,
            run.nearest.len() != self.width || run.candidates[position].distance.key()
                <= run.nearest.last().distance.key() ==> self.best_first(run)
                == self.best_first(self.step(run, position)),
    {
        let first = run.candidates[position];
        assert(is_closest(run.candidates, first)) by {
            assert forall|i: int| 0 <= i < run.candidates.len() implies !precedes(
                #[trigger] run.candidates[i],
                first,
            ) by {}
        }
        lemma_closest(run.candidates);
        assert(closest(run.candidates) == first);
        let other = run.candidates.index_of(first);
        assert(run.candidates[other] == run.candidates[position]);
    }

    /// A best-first search with nothing to expand is over.
    pub proof fn law_best_first_ends(self, run: Run<U>)
        requires
            run.candidates.len() == 0,
        ensures
            self.best_first(run) == run,
    {
    }

    /// A scrub takes off the list what may not be reported and nothing else, keeps the
    /// order of the rest, and leaves alone what waits and what was come upon.
    pub proof fn law_scrub_takes_off_the_list(self, run: Run<U>, node: Neighbor<U>)
        ensures
            self.scrub(run).candidates == run.candidates,
            self.scrub(run).seen == run.seen,
            self.scrub(run).nearest.to_multiset().count(node) == if (self.accept)(
                self.layer.ids[node.index as int],
            ) {
                run.nearest.to_multiset().count(node)
            } else {
                0
            },
            run.nearest.len() == 1 && (self.accept)(
                self.layer.ids[run.nearest[0].index as int],
            ) ==> self.scrub(run).nearest == run.nearest,
            run.nearest.len() == 1 && !(self.accept)(
                self.layer.ids[run.nearest[0].index as int],
            ) ==> self.scrub(run).nearest.len() == 0,
    {
        let may = |node: Neighbor<U>| (self.accept)(self.layer.ids[node.index as int]);
        lemma_filter_counts(run.nearest, may, node);
        if run.nearest.len() == 1 {
            reveal_with_fuel(Seq::filter, 2);
            assert(run.nearest.drop_last() =~= Seq::empty());
            assert(run.nearest.last() == run.nearest[0]);
            if may(run.nearest[0]) {
                assert(run.nearest.filter(may) =~= run.nearest);
            } else {
                assert(run.nearest.filter(may) =~= Seq::empty());
            }
        }
    }
}

proof fn lemma_filter_counts<A>(list: Seq<A>, may: spec_fn(A) -> bool, item: A)
    ensures
        list.filter(may).to_multiset().count(item) == if may(item) {
            list.to_multiset().count(item)
        } else {
            0
        },
    decreases list.len(),
{
    broadcast use {
        vstd::seq_lib::to_multiset_build,
        vstd::seq_lib::to_multiset_len,
        vstd::seq_lib::to_multiset_contains,
    };

    reveal(Seq::filter);
    if list.len() > 0 {
        let front = list.drop_last();
        lemma_filter_counts(front, may, item);
        assert(list =~= front.push(list.last()));
    } else {
        assert(list.filter(may) =~= list);
        assert(list =~= Seq::empty());
        assert(!list.contains(item));
    }
}

/// Two runs are the same but for order if and only if they found the same, came upon the
/// same, and every node waits as often in the one as in the other.
pub proof fn law_same_but_order<U>(a: Run<U>, b: Run<U>)
    ensures
        same_but_order(a, b) <==> a.nearest == b.nearest && a.seen == b.seen && (forall|
            node: Neighbor<U>,
        | #[trigger]
            a.candidates.to_multiset().count(node) == b.candidates.to_multiset().count(node)),
{
    if forall|node: Neighbor<U>| #[trigger]
        a.candidates.to_multiset().count(node) == b.candidates.to_multiset().count(node) {
        assert(a.candidates.to_multiset() =~= b.candidates.to_multiset());
    }
}

} // verus!
