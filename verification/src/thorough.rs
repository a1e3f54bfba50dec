//! What a search over one layer misses, and what it does not.

use crate::metric::Neighbor;
use crate::ranking::{lemma_rank, lemma_ranked_insert, rank};
use crate::traverse::{closest, lemma_closest, unseen, Beam, LayerView, Run};
use crate::unit::Unit;
use vstd::prelude::*;

verus! {

impl LayerView {
    /// Whether no two nodes have the same id.
    pub open spec fn distinct(self) -> bool {
        forall|a: int, b: int|
            0 <= a < b < self.ids.len() ==> #[trigger] self.ids[a] != #[trigger] self.ids[b]
    }

    /// Whether a sequence of nodes follows links, one after the other.
    pub open spec fn is_path(self, path: Seq<usize>) -> bool {
        &&& path.len() > 0
        &&& forall|k: int| 0 <= k < path.len() ==> (#[trigger] path[k]) < self.ids.len()
        &&& forall|k: int|
            0 < k < path.len() ==> self.links[path[k - 1] as int].contains(#[trigger] path[k])
    }
}

/// Whether an index waits to be expanded.
pub open spec fn waits<U>(run: Run<U>, index: usize) -> bool {
    exists|i: int| 0 <= i < run.candidates.len() && (#[trigger] run.candidates[i]).index == index
}

impl<U: Unit> Beam<U> {
    /// Whether the node of an id is on the list.
    pub open spec fn lists(self, run: Run<U>, id: usize) -> bool {
        exists|i: int|
            0 <= i < run.nearest.len() && self.layer.ids[(
            #[trigger] run.nearest[i]).index as int] == id
    }

    /// Whether the list is full and the node of an id is no closer than the last on
    /// it.
    pub open spec fn outdone(self, run: Run<U>, id: usize) -> bool {
        &&& run.nearest.len() == self.width
        &&& run.nearest.last().distance.key() <= (self.distance)(id).key()
    }

    /// Whether the list holds the closest of all that was come upon and may be
    /// reported.
    pub open spec fn best(self, run: Run<U>) -> bool {
        forall|id: usize| #[trigger]
            run.seen.contains(id) && (self.accept)(id) ==> self.lists(run, id) || self.outdone(
                run,
                id,
            )
    }

    /// Whether every link of a node leads to one that was come upon.
    pub open spec fn expanded(self, run: Run<U>, index: usize) -> bool {
        forall|slot: int|
            0 <= slot < self.layer.links[index as int].len() ==> run.seen.contains(
                self.layer.ids[(#[trigger] self.layer.links[index as int][slot]) as int],
            )
    }

    /// Whether every node that was come upon, but perhaps `busy`, was expanded or
    /// waits to be.
    pub open spec fn settled_but(self, run: Run<U>, busy: Option<usize>) -> bool {
        forall|index: usize|
            index < self.layer.ids.len() && run.seen.contains(
                #[trigger] self.layer.ids[index as int],
            ) && busy != Some(index) ==> waits(run, index) || self.expanded(run, index)
    }

    /// Following one link leaves the list the best of what was come upon.
    proof fn lemma_visit_best(self, run: Run<U>, link: usize)
        requires
            self.width > 0,
            self.sound(run),
            self.fits(run),
            self.best(run),
            link < self.layer.ids.len(),
        ensures
            self.best(self.visit(run, link)),
    {
        let fresh = self.layer.ids[link as int];
        let found = Neighbor { index: link, distance: (self.distance)(fresh) };
        let after = self.visit(run, link);
        let place = rank(run.nearest, found.distance) as int;
        lemma_rank(run.nearest, found.distance);
        if !run.seen.contains(fresh) {
            if place == self.width {
                assert(run.nearest[self.width - 1] == run.nearest.last());
                assert forall|id: usize| #[trigger]
                    after.seen.contains(id) && (self.accept)(id) implies self.lists(after, id)
                    || self.outdone(after, id) by {
                    if id != fresh {
                        assert(run.seen.contains(id));
                        if self.lists(run, id) {
                            let i = choose|i: int|
                                0 <= i < run.nearest.len() && self.layer.ids[(
                                #[trigger] run.nearest[i]).index as int] == id;
                            assert(self.layer.ids[after.nearest[i].index as int] == id);
                        }
                    }
                }
            } else if (self.accept)(fresh) {
                lemma_ranked_insert(run.nearest, found, self.width);
                assert forall|id: usize| #[trigger]
                    after.seen.contains(id) && (self.accept)(id) implies self.lists(after, id)
                    || self.outdone(after, id) by {
                    self.lemma_insert_best(run, link, id);
                }
            } else {
                assert forall|id: usize| #[trigger]
                    after.seen.contains(id) && (self.accept)(id) implies self.lists(after, id)
                    || self.outdone(after, id) by {
                    assert(run.seen.contains(id));
                    if self.lists(run, id) {
                        let i = choose|i: int|
                            0 <= i < run.nearest.len() && self.layer.ids[(
                            #[trigger] run.nearest[i]).index as int] == id;
                        assert(self.layer.ids[after.nearest[i].index as int] == id);
                    }
                }
            }
        }
    }

    proof fn lemma_insert_best(self, run: Run<U>, link: usize, id: usize)
        requires
            self.width > 0,
            self.sound(run),
            self.fits(run),
            self.best(run),
            link < self.layer.ids.len(),
            !run.seen.contains(self.layer.ids[link as int]),
            rank(run.nearest, (self.distance)(self.layer.ids[link as int])) != self.width,
            (self.accept)(self.layer.ids[link as int]),
            (self.accept)(id),
            self.visit(run, link).seen.contains(id),
        ensures
            self.lists(self.visit(run, link), id) || self.outdone(self.visit(run, link), id),
    {
        let fresh = self.layer.ids[link as int];
        let found = Neighbor { index: link, distance: (self.distance)(fresh) };
        let after = self.visit(run, link);
        let place = rank(run.nearest, found.distance) as int;
        lemma_rank(run.nearest, found.distance);
        lemma_ranked_insert(run.nearest, found, self.width);
        let full = run.nearest.len() == self.width;
        if full {
            // The last of the list makes room, and is no closer than the new last.
            let last = run.nearest.len() - 1;
            assert(run.nearest.last() == run.nearest[last]);
            assert(found.distance.key() < run.nearest[place].distance.key());
            if place < last {
                assert(run.nearest[place].distance.key() <= run.nearest[last].distance.key());
                assert(after.nearest[last] == run.nearest[last - 1]);
                assert(run.nearest[last - 1].distance.key() <= run.nearest[last].distance.key());
            } else {
                assert(after.nearest[last] == found);
            }
            assert(after.nearest.last() == after.nearest[last]);
        }
        if id == fresh {
            assert(after.nearest[place] == found);
            assert(self.layer.ids[after.nearest[place].index as int] == id);
        } else {
            assert(run.seen.contains(id));
            if self.lists(run, id) {
                let i = choose|i: int|
                    0 <= i < run.nearest.len() && self.layer.ids[(
                    #[trigger] run.nearest[i]).index as int] == id;
                let moved = if i < place {
                    i
                } else {
                    i + 1
                };
                if moved < after.nearest.len() {
                    assert(after.nearest[moved] == run.nearest[i]);
                    assert(self.layer.ids[after.nearest[moved].index as int] == id);
                } else {
                    assert(self.knows(run, run.nearest[i]));
                    assert(self.outdone(after, id));
                }
            } else {
                assert(self.outdone(run, id));
                assert(self.outdone(after, id));
            }
        }
    }

    /// Following links leaves the list the best of what was come upon.
    proof fn lemma_expand_best(self, run: Run<U>, links: Seq<usize>)
        requires
            self.width > 0,
            self.sound(run),
            self.fits(run),
            self.best(run),
            forall|i: int| 0 <= i < links.len() ==> (#[trigger] links[i]) < self.layer.ids.len(),
        ensures
            self.best(self.expand(run, links)),
        decreases links.len(),
    {
        if links.len() > 0 {
            let front = links.drop_last();
            assert forall|i: int| 0 <= i < front.len() implies (#[trigger] front[i])
                < self.layer.ids.len() by {
                assert(front[i] == links[i]);
            }
            self.lemma_expand_best(run, front);
            self.lemma_expand_keeps(run, front);
            assert(links[links.len() - 1] == links.last());
            self.lemma_visit_best(self.expand(run, front), links.last());
        }
    }

    /// Expanding a candidate leaves the list the best of what was come upon.
    proof fn lemma_step_best(self, run: Run<U>, position: int)
        requires
            self.width > 0,
            self.layer.closed(),
            self.sound(run),
            self.fits(run),
            self.best(run),
            0 <= position < run.candidates.len(),
        ensures
            self.best(self.step(run, position)),
    {
        let popped = Run { candidates: run.candidates.remove(position), ..run };
        self.lemma_pop_sound(run, position);
        assert(self.knows(run, run.candidates[position]));
        assert(self.best(popped)) by {
            assert forall|id: usize| #[trigger]
                popped.seen.contains(id) && (self.accept)(id) implies self.lists(popped, id)
                || self.outdone(popped, id) by {
                assert(run.seen.contains(id));
                if self.lists(run, id) {
                    let i = choose|i: int|
                        0 <= i < run.nearest.len() && self.layer.ids[(
                        #[trigger] run.nearest[i]).index as int] == id;
                    assert(self.layer.ids[popped.nearest[i].index as int] == id);
                }
            }
        }
        self.lemma_expand_best(
            popped,
            self.layer.links[run.candidates[position].index as int],
        );
    }

    /// A best-first search leaves the list the best of what was come upon.
    pub proof fn lemma_best_first_best(self, run: Run<U>)
        requires
            self.width > 0,
            self.layer.closed(),
            self.sound(run),
            self.fits(run),
            self.best(run),
        ensures
            self.best(self.best_first(run)),
        decreases unseen(run.seen), run.candidates.len(),
    {
        if run.candidates.len() > 0 && !self.saturated(run) {
            lemma_closest(run.candidates);
            let position = run.candidates.index_of(closest(run.candidates));
            self.lemma_step_best(run, position);
            self.lemma_step_keeps(run, position);
            self.lemma_step_descends(run, position);
            self.lemma_best_first_best(self.step(run, position));
        }
    }

    /// While the list has room, following one link drops nothing.
    proof fn lemma_visit_settled(self, run: Run<U>, link: usize, busy: Option<usize>)
        requires
            self.layer.distinct(),
            self.sound(run),
            self.fits(run),
            link < self.layer.ids.len(),
            self.settled_but(run, busy),
            self.visit(run, link).nearest.len() < self.width,
        ensures
            self.settled_but(self.visit(run, link), busy),
            self.visit(run, link).seen.contains(self.layer.ids[link as int]),
    {
        let after = self.visit(run, link);
        let fresh = self.layer.ids[link as int];
        self.lemma_visit_keeps(run, link);
        lemma_rank(run.nearest, (self.distance)(fresh));
        assert forall|index: usize|
            index < self.layer.ids.len() && after.seen.contains(
                #[trigger] self.layer.ids[index as int],
            ) && busy != Some(index) implies waits(after, index) || self.expanded(after, index) by {
            if run.seen.contains(self.layer.ids[index as int]) {
                if waits(run, index) {
                    let i = choose|i: int|
                        0 <= i < run.candidates.len() && (#[trigger] run.candidates[i]).index
                            == index;
                    assert(after.candidates[i].index == index);
                }
            } else {
                assert(index == link);
                assert(after.candidates[run.candidates.len() as int].index == link);
            }
        }
    }

    /// While the list has room, following links drops nothing.
    proof fn lemma_expand_settled(self, run: Run<U>, links: Seq<usize>, busy: Option<usize>)
        requires
            self.layer.distinct(),
            self.sound(run),
            self.fits(run),
            forall|i: int| 0 <= i < links.len() ==> (#[trigger] links[i]) < self.layer.ids.len(),
            self.settled_but(run, busy),
            self.expand(run, links).nearest.len() < self.width,
        ensures
            self.settled_but(self.expand(run, links), busy),
            forall|i: int|
                0 <= i < links.len() ==> self.expand(run, links).seen.contains(
                    self.layer.ids[(#[trigger] links[i]) as int],
                ),
        decreases links.len(),
    {
        if links.len() > 0 {
            let front = links.drop_last();
            assert forall|i: int| 0 <= i < front.len() implies (#[trigger] front[i])
                < self.layer.ids.len() by {
                assert(front[i] == links[i]);
            }
            let before = self.expand(run, front);
            let last = links.last();
            assert(links[links.len() - 1] == last);
            self.lemma_expand_keeps(run, front);
            self.lemma_visit_keeps(before, last);
            self.lemma_expand_settled(run, front, busy);
            self.lemma_visit_settled(before, last, busy);
            assert forall|i: int| 0 <= i < links.len() implies self.expand(
                run,
                links,
            ).seen.contains(self.layer.ids[(#[trigger] links[i]) as int]) by {
                if i < front.len() {
                    assert(front[i] == links[i]);
                    assert(before.seen.contains(self.layer.ids[front[i] as int]));
                }
            }
        }
    }

    /// While the list has room, expanding a candidate drops nothing.
    proof fn lemma_step_settled(self, run: Run<U>, position: int)
        requires
            self.layer.closed(),
            self.layer.distinct(),
            self.sound(run),
            self.fits(run),
            0 <= position < run.candidates.len(),
            self.settled_but(run, None),
            self.step(run, position).nearest.len() < self.width,
        ensures
            self.settled_but(self.step(run, position), None),
    {
        let busy = run.candidates[position].index;
        let popped = Run { candidates: run.candidates.remove(position), ..run };
        let links = self.layer.links[busy as int];
        self.lemma_pop_sound(run, position);
        assert(self.knows(run, run.candidates[position]));
        assert(self.settled_but(popped, Some(busy))) by {
            assert forall|index: usize|
                index < self.layer.ids.len() && popped.seen.contains(
                    #[trigger] self.layer.ids[index as int],
                ) && Some(busy) != Some(index) implies waits(popped, index) || self.expanded(
                popped,
                index,
            ) by {
                if waits(run, index) {
                    let i = choose|i: int|
                        0 <= i < run.candidates.len() && (#[trigger] run.candidates[i]).index
                            == index;
                    let moved = if i < position {
                        i
                    } else {
                        i - 1
                    };
                    assert(popped.candidates[moved] == run.candidates[i]);
                    assert(popped.candidates[moved].index == index);
                }
            }
        }
        self.lemma_expand_settled(popped, links, Some(busy));
        let after = self.step(run, position);
        assert(self.expanded(after, busy)) by {
            assert forall|slot: int| 0 <= slot < links.len() implies after.seen.contains(
                self.layer.ids[(#[trigger] self.layer.links[busy as int][slot]) as int],
            ) by {
                assert(links[slot] == self.layer.links[busy as int][slot]);
            }
        }
    }

    /// A best-first search that ends with room on its list expanded everything that
    /// it came upon.
    pub proof fn lemma_best_first_settled(self, run: Run<U>)
        requires
            self.layer.closed(),
            self.layer.distinct(),
            self.sound(run),
            self.fits(run),
            self.settled_but(run, None),
            self.best_first(run).nearest.len() < self.width,
        ensures
            self.settled_but(self.best_first(run), None),
            self.best_first(run).candidates.len() == 0,
        decreases unseen(run.seen), run.candidates.len(),
    {
        if run.candidates.len() > 0 {
            self.lemma_best_first_keeps(run);
            assert(!self.saturated(run));
            lemma_closest(run.candidates);
            let position = run.candidates.index_of(closest(run.candidates));
            let next = self.step(run, position);
            self.lemma_step_keeps(run, position);
            self.lemma_step_descends(run, position);
            self.lemma_best_first_keeps(next);
            self.lemma_step_settled(run, position);
            self.lemma_best_first_settled(next);
        }
    }

    /// Where everything that was come upon was expanded, so was everything that a
    /// path from it leads to.
    pub proof fn lemma_path_seen(self, run: Run<U>, path: Seq<usize>)
        requires
            self.layer.closed(),
            self.layer.is_path(path),
            run.candidates.len() == 0,
            self.settled_but(run, None),
            run.seen.contains(self.layer.ids[path[0] as int]),
        ensures
            run.seen.contains(self.layer.ids[path.last() as int]),
        decreases path.len(),
    {
        if path.len() > 1 {
            let front = path.drop_last();
            assert(front[0] == path[0]);
            assert forall|k: int| 0 <= k < front.len() implies (#[trigger] front[k])
                < self.layer.ids.len() by {
                assert(front[k] == path[k]);
            }
            assert forall|k: int| 0 < k < front.len() implies self.layer.links[front[k
                - 1] as int].contains(#[trigger] front[k]) by {
                assert(front[k] == path[k]);
                assert(front[k - 1] == path[k - 1]);
            }
            self.lemma_path_seen(run, front);
            let here = front.last();
            assert(here == path[path.len() - 2]);
            assert(path[path.len() - 1] == path.last());
            assert(!waits(run, here));
            assert(self.expanded(run, here));
            let links = self.layer.links[here as int];
            assert(links.contains(path.last()));
            let slot = links.index_of(path.last());
            assert(self.layer.links[here as int][slot] == path.last());
        }
    }

    /// A best-first search stops because nothing waits, or because nothing that waits
    /// can improve the list.
    pub proof fn lemma_best_first_stops(self, run: Run<U>)
        ensures
            ({
                let after = self.best_first(run);
                after.candidates.len() == 0 || self.saturated(after)
            }),
        decreases unseen(run.seen), run.candidates.len(),
    {
        if run.candidates.len() > 0 && !self.saturated(run) {
            lemma_closest(run.candidates);
            let position = run.candidates.index_of(closest(run.candidates));
            self.lemma_step_descends(run, position);
            self.lemma_best_first_stops(self.step(run, position));
        }
    }

    /// Whether two searches differ at most in what may be reported, and there not for
    /// any node of the layer.
    pub open spec fn same_for_layer(self, other: Self) -> bool {
        &&& self.layer == other.layer
        &&& self.distance == other.distance
        &&& self.width == other.width
        &&& forall|i: int|
            0 <= i < self.layer.ids.len() ==> (self.accept)(#[trigger] self.layer.ids[i]) == (
            other.accept)(self.layer.ids[i])
    }

    proof fn lemma_expand_same(self, other: Self, run: Run<U>, links: Seq<usize>)
        requires
            self.same_for_layer(other),
            forall|i: int| 0 <= i < links.len() ==> (#[trigger] links[i]) < self.layer.ids.len(),
        ensures
            self.expand(run, links) == other.expand(run, links),
        decreases links.len(),
    {
        if links.len() > 0 {
            let front = links.drop_last();
            assert forall|i: int| 0 <= i < front.len() implies (#[trigger] front[i])
                < self.layer.ids.len() by {
                assert(front[i] == links[i]);
            }
            self.lemma_expand_same(other, run, front);
            assert(links[links.len() - 1] == links.last());
            assert((self.accept)(self.layer.ids[links.last() as int]) == (other.accept)(
                self.layer.ids[links.last() as int],
            ));
        }
    }

    /// Such searches go the same way.
    pub proof fn lemma_best_first_same(self, other: Self, run: Run<U>)
        requires
            self.layer.closed(),
            self.same_for_layer(other),
            self.sound(run),
            self.fits(run),
        ensures
            self.best_first(run) == other.best_first(run),
        decreases unseen(run.seen), run.candidates.len(),
    {
        if run.candidates.len() > 0 && !self.saturated(run) {
            lemma_closest(run.candidates);
            let position = run.candidates.index_of(closest(run.candidates));
            assert(self.knows(run, run.candidates[position]));
            self.lemma_expand_same(
                other,
                Run { candidates: run.candidates.remove(position), ..run },
                self.layer.links[run.candidates[position].index as int],
            );
            self.lemma_step_keeps(run, position);
            self.lemma_step_descends(run, position);
            self.lemma_best_first_same(other, self.step(run, position));
        }
    }

    /// Whether a node waits to be expanded does not depend on whether it may be
    /// reported: one that may not takes no more of the search than one that may.
    pub proof fn law_waiting_does_not_depend_on_acceptance(
        self,
        other: Self,
        run: Run<U>,
        link: usize,
    )
        requires
            self.layer == other.layer,
            self.distance == other.distance,
            self.width == other.width,
        ensures
            self.visit(run, link).candidates == other.visit(run, link).candidates,
            self.visit(run, link).seen == other.visit(run, link).seen,
    {
    }

    /// Whether everything on the list may be reported, but perhaps the node of an id.
    pub open spec fn screened_but(self, run: Run<U>, id: usize) -> bool {
        forall|i: int|
            0 <= i < run.nearest.len() ==> (self.accept)(
                self.layer.ids[(#[trigger] run.nearest[i]).index as int],
            ) || self.layer.ids[run.nearest[i].index as int] == id
    }

    proof fn lemma_expand_screened(self, run: Run<U>, links: Seq<usize>, id: usize)
        requires
            self.sound(run),
            self.fits(run),
            forall|i: int| 0 <= i < links.len() ==> (#[trigger] links[i]) < self.layer.ids.len(),
            self.screened_but(run, id),
        ensures
            self.screened_but(self.expand(run, links), id),
        decreases links.len(),
    {
        if links.len() > 0 {
            let front = links.drop_last();
            assert forall|i: int| 0 <= i < front.len() implies (#[trigger] front[i])
                < self.layer.ids.len() by {
                assert(front[i] == links[i]);
            }
            self.lemma_expand_keeps(run, front);
            self.lemma_expand_screened(run, front, id);
            let before = self.expand(run, front);
            let after = self.expand(run, links);
            let link = links.last();
            let fresh = self.layer.ids[link as int];
            let found = Neighbor { index: link, distance: (self.distance)(fresh) };
            if !before.seen.contains(fresh) && rank(before.nearest, found.distance) != self.width
                && (self.accept)(fresh) {
                lemma_ranked_insert(before.nearest, found, self.width);
                let place = rank(before.nearest, found.distance) as int;
                assert forall|i: int| 0 <= i < after.nearest.len() implies (self.accept)(
                    self.layer.ids[(#[trigger] after.nearest[i]).index as int],
                ) || self.layer.ids[after.nearest[i].index as int] == id by {
                    if i < place {
                        assert(after.nearest[i] == before.nearest[i]);
                    } else if i > place {
                        assert(after.nearest[i] == before.nearest[i - 1]);
                    }
                }
            } else {
                assert(after.nearest == before.nearest);
            }
        }
    }

    /// A depth-first search puts nothing on the list that may not be reported.
    pub proof fn lemma_depth_first_screened(self, run: Run<U>, id: usize)
        requires
            self.layer.closed(),
            self.sound(run),
            self.fits(run),
            self.screened_but(run, id),
        ensures
            self.screened_but(self.depth_first(run), id),
        decreases unseen(run.seen), run.candidates.len(),
    {
        if run.candidates.len() > 0 {
            let last = run.candidates.len() - 1;
            self.lemma_pop_sound(run, last);
            assert(self.knows(run, run.candidates[last]));
            self.lemma_expand_screened(
                Run { candidates: run.candidates.remove(last), ..run },
                self.layer.links[run.candidates[last].index as int],
                id,
            );
            self.lemma_step_keeps(run, last);
            self.lemma_step_descends(run, last);
            self.lemma_depth_first_screened(self.step(run, last), id);
        }
    }

    /// Whether every node on the list, but perhaps `busy`, was expanded or waits to be.
    pub open spec fn tended_but(self, run: Run<U>, busy: Option<usize>) -> bool {
        forall|i: int|
            0 <= i < run.nearest.len() && busy != Some((#[trigger] run.nearest[i]).index) ==> waits(
                run,
                run.nearest[i].index,
            ) || self.expanded(run, run.nearest[i].index)
    }

    /// Following links leaves none that is listed behind, and comes upon all of them.
    proof fn lemma_expand_tended(self, run: Run<U>, links: Seq<usize>, busy: Option<usize>)
        requires
            self.sound(run),
            self.fits(run),
            forall|i: int| 0 <= i < links.len() ==> (#[trigger] links[i]) < self.layer.ids.len(),
            self.tended_but(run, busy),
        ensures
            self.tended_but(self.expand(run, links), busy),
            forall|i: int|
                0 <= i < links.len() ==> self.expand(run, links).seen.contains(
                    self.layer.ids[(#[trigger] links[i]) as int],
                ),
        decreases links.len(),
    {
        if links.len() > 0 {
            let front = links.drop_last();
            assert forall|i: int| 0 <= i < front.len() implies (#[trigger] front[i])
                < self.layer.ids.len() by {
                assert(front[i] == links[i]);
            }
            self.lemma_expand_keeps(run, front);
            self.lemma_expand_tended(run, front, busy);
            let before = self.expand(run, front);
            let after = self.expand(run, links);
            let link = links.last();
            assert(links[links.len() - 1] == link);
            self.lemma_visit_tended(before, link, busy);
            self.lemma_visit_keeps(before, link);
            assert forall|i: int| 0 <= i < links.len() implies after.seen.contains(
                self.layer.ids[(#[trigger] links[i]) as int],
            ) by {
                if i < front.len() {
                    assert(front[i] == links[i]);
                    assert(before.seen.contains(self.layer.ids[front[i] as int]));
                }
            }
        }
    }

    proof fn lemma_visit_tended(self, run: Run<U>, link: usize, busy: Option<usize>)
        requires
            self.sound(run),
            self.fits(run),
            link < self.layer.ids.len(),
            self.tended_but(run, busy),
        ensures
            self.tended_but(self.visit(run, link), busy),
    {
        let after = self.visit(run, link);
        let fresh = self.layer.ids[link as int];
        let found = Neighbor { index: link, distance: (self.distance)(fresh) };
        let place = rank(run.nearest, found.distance) as int;
        lemma_rank(run.nearest, found.distance);
        assert forall|i: int|
            0 <= i < after.nearest.len() && busy != Some(
                (#[trigger] after.nearest[i]).index,
            ) implies waits(after, after.nearest[i].index) || self.expanded(
            after,
            after.nearest[i].index,
        ) by {
            let kept = !run.seen.contains(fresh) && place != self.width && (self.accept)(fresh);
            if kept {
                lemma_ranked_insert(run.nearest, found, self.width);
            }
            if kept && i == place {
                assert(after.candidates[run.candidates.len() as int].index == link);
            } else {
                let origin = if kept && i > place {
                    i - 1
                } else {
                    i
                };
                assert(after.nearest[i] == run.nearest[origin]);
                let index = run.nearest[origin].index;
                if waits(run, index) {
                    let k = choose|k: int|
                        0 <= k < run.candidates.len() && (#[trigger] run.candidates[k]).index
                            == index;
                    assert(after.candidates[k].index == index);
                } else {
                    assert(self.expanded(run, index));
                }
            }
        }
    }

    proof fn lemma_step_tended(self, run: Run<U>, position: int)
        requires
            self.layer.closed(),
            self.sound(run),
            self.fits(run),
            0 <= position < run.candidates.len(),
            self.tended_but(run, None),
        ensures
            self.tended_but(self.step(run, position), None),
    {
        let busy = run.candidates[position].index;
        let popped = Run { candidates: run.candidates.remove(position), ..run };
        let links = self.layer.links[busy as int];
        self.lemma_pop_sound(run, position);
        assert(self.knows(run, run.candidates[position]));
        assert(self.tended_but(popped, Some(busy))) by {
            assert forall|i: int|
                0 <= i < popped.nearest.len() && Some(busy) != Some(
                    (#[trigger] popped.nearest[i]).index,
                ) implies waits(popped, popped.nearest[i].index) || self.expanded(
                popped,
                popped.nearest[i].index,
            ) by {
                let index = run.nearest[i].index;
                if waits(run, index) {
                    let k = choose|k: int|
                        0 <= k < run.candidates.len() && (#[trigger] run.candidates[k]).index
                            == index;
                    let moved = if k < position {
                        k
                    } else {
                        k - 1
                    };
                    assert(popped.candidates[moved] == run.candidates[k]);
                    assert(popped.candidates[moved].index == index);
                }
            }
        }
        self.lemma_expand_tended(popped, links, Some(busy));
        let after = self.step(run, position);
        assert(self.expanded(after, busy)) by {
            assert forall|slot: int| 0 <= slot < links.len() implies after.seen.contains(
                self.layer.ids[(#[trigger] self.layer.links[busy as int][slot]) as int],
            ) by {
                assert(links[slot] == self.layer.links[busy as int][slot]);
            }
        }
    }

    /// A depth-first search leaves the list the best of what was come upon, and expands
    /// everything on it.
    pub proof fn lemma_depth_first_tended(self, run: Run<U>)
        requires
            self.width > 0,
            self.layer.closed(),
            self.sound(run),
            self.fits(run),
            self.best(run),
            self.tended_but(run, None),
        ensures
            self.best(self.depth_first(run)),
            forall|i: int|
                0 <= i < self.depth_first(run).nearest.len() ==> self.expanded(
                    self.depth_first(run),
                    (#[trigger] self.depth_first(run).nearest[i]).index,
                ),
        decreases unseen(run.seen), run.candidates.len(),
    {
        if run.candidates.len() > 0 {
            let last = run.candidates.len() - 1;
            self.lemma_step_best(run, last);
            self.lemma_step_tended(run, last);
            self.lemma_step_keeps(run, last);
            self.lemma_step_descends(run, last);
            self.lemma_depth_first_tended(self.step(run, last));
        } else {
            assert forall|i: int| 0 <= i < run.nearest.len() implies self.expanded(
                run,
                (#[trigger] run.nearest[i]).index,
            ) by {
                assert(!waits(run, run.nearest[i].index));
            }
        }
    }

    /// A best-first search expands everything on the list.
    pub proof fn lemma_best_first_tended(self, run: Run<U>)
        requires
            self.layer.closed(),
            self.sound(run),
            self.fits(run),
            self.tended_but(run, None),
        ensures
            forall|i: int|
                0 <= i < self.best_first(run).nearest.len() ==> self.expanded(
                    self.best_first(run),
                    (#[trigger] self.best_first(run).nearest[i]).index,
                ),
        decreases unseen(run.seen), run.candidates.len(),
    {
        if run.candidates.len() > 0 && !self.saturated(run) {
            lemma_closest(run.candidates);
            let position = run.candidates.index_of(closest(run.candidates));
            self.lemma_step_tended(run, position);
            self.lemma_step_keeps(run, position);
            self.lemma_step_descends(run, position);
            self.lemma_best_first_tended(self.step(run, position));
            assert(self.best_first(run) == self.best_first(self.step(run, position)));
        } else {
            assert(self.best_first(run) == run);
            assert forall|i: int| 0 <= i < run.nearest.len() implies self.expanded(
                run,
                (#[trigger] run.nearest[i]).index,
            ) by {
                let index = run.nearest[i].index;
                if waits(run, index) {
                    // What waits is no closer than the closest, which is farther than
                    // the last of the list.
                    let k = choose|k: int|
                        0 <= k < run.candidates.len() && (#[trigger] run.candidates[k]).index
                            == index;
                    lemma_closest(run.candidates);
                    assert(self.knows(run, run.candidates[k]));
                    assert(self.knows(run, run.nearest[i]));
                    let last = run.nearest.len() - 1;
                    if i < last {
                        assert(run.nearest[i].distance.key() <= run.nearest[last].distance.key());
                    }
                    assert(false);
                }
            }
        }
    }
}

} // verus!
