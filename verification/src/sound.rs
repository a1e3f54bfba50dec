//! What holds of a search over one layer, wherever it stands.

use crate::metric::Neighbor;
use crate::ranking::{lemma_rank, lemma_ranked_insert, rank, sorted};
use crate::traverse::{closest, lemma_closest, unseen, Beam, Run};
use crate::unit::Unit;
use vstd::prelude::*;

verus! {

impl<U: Unit> Beam<U> {
    /// Whether a node that a run holds is a node of the layer, at its true
    /// distance, and was come upon.
    pub open spec fn knows(self, run: Run<U>, node: Neighbor<U>) -> bool {
        &&& node.index < self.layer.ids.len()
        &&& node.distance == (self.distance)(self.layer.ids[node.index as int])
        &&& run.seen.contains(self.layer.ids[node.index as int])
    }

    /// What holds of every run: it knows the nodes it holds, and its list is
    /// ascending and names no node twice.
    pub open spec fn sound(self, run: Run<U>) -> bool {
        &&& sorted(run.nearest)
        &&& forall|i: int|
            0 <= i < run.candidates.len() ==> self.knows(run, #[trigger] run.candidates[i])
        &&& forall|i: int| 0 <= i < run.nearest.len() ==> self.knows(run, #[trigger] run.nearest[i])
        &&& forall|i: int, j: int|
            0 <= i < j < run.nearest.len() ==> (#[trigger] run.nearest[i]).index != (
            #[trigger] run.nearest[j]).index
    }

    /// Whether everything in the list may be reported.
    pub open spec fn screened(self, run: Run<U>) -> bool {
        forall|i: int|
            0 <= i < run.nearest.len() ==> (self.accept)(
                self.layer.ids[(#[trigger] run.nearest[i]).index as int],
            )
    }

    /// Whether the list holds no more than it should. (Of a list for no node at
    /// all this is not asked.)
    pub open spec fn fits(self, run: Run<U>) -> bool {
        run.nearest.len() <= self.width || self.width == 0
    }

    /// What a search keeps: soundness, the bound on the list, that all of it may be
    /// reported, and what is on it is never lost but to something closer.
    pub open spec fn keeps(self, before: Run<U>, after: Run<U>) -> bool {
        &&& self.sound(after)
        &&& self.fits(after)
        &&& self.screened(before) ==> self.screened(after)
        &&& before.nearest.len() <= after.nearest.len()
        &&& before.nearest.len() > 0 ==> after.nearest[0].distance.key()
            <= before.nearest[0].distance.key()
        &&& before.seen.subset_of(after.seen)
    }

    /// Following one link keeps it all.
    pub proof fn lemma_visit_keeps(self, run: Run<U>, link: usize)
        requires
            self.sound(run),
            self.fits(run),
            link < self.layer.ids.len(),
        ensures
            self.keeps(run, self.visit(run, link)),
    {
        let id = self.layer.ids[link as int];
        let found = Neighbor { index: link, distance: (self.distance)(id) };
        let after = self.visit(run, link);
        lemma_rank(run.nearest, found.distance);
        if !run.seen.contains(id) {
            assert(self.knows(after, found));
            if rank(run.nearest, found.distance) != self.width {
                assert forall|i: int| 0 <= i < after.candidates.len() implies self.knows(
                    after,
                    #[trigger] after.candidates[i],
                ) by {
                    if i < run.candidates.len() {
                        assert(after.candidates[i] == run.candidates[i]);
                    }
                }
                if (self.accept)(id) {
                    lemma_ranked_insert(run.nearest, found, self.width);
                    let place = rank(run.nearest, found.distance) as int;
                    assert forall|i: int| 0 <= i < after.nearest.len() implies self.knows(
                        after,
                        #[trigger] after.nearest[i],
                    ) && (i != place ==> after.nearest[i].index != link) && (self.screened(run)
                        ==> (self.accept)(
                        self.layer.ids[after.nearest[i].index as int],
                    )) by {
                        if i < place {
                            assert(self.knows(run, run.nearest[i]));
                        } else if i > place {
                            assert(self.knows(run, run.nearest[i - 1]));
                        }
                    }
                    assert forall|i: int, j: int| 0 <= i < j < after.nearest.len() implies (
                    #[trigger] after.nearest[i]).index != (#[trigger] after.nearest[j]).index by {
                        if i != place && j != place {
                            let a = if i < place {
                                i
                            } else {
                                i - 1
                            };
                            let b = if j < place {
                                j
                            } else {
                                j - 1
                            };
                            assert(after.nearest[i] == run.nearest[a]);
                            assert(after.nearest[j] == run.nearest[b]);
                        }
                    }
                } else {
                    assert forall|i: int| 0 <= i < after.nearest.len() implies self.knows(
                        after,
                        #[trigger] after.nearest[i],
                    ) by {
                        assert(self.knows(run, run.nearest[i]));
                    }
                }
            } else {
                assert forall|i: int| 0 <= i < after.candidates.len() implies self.knows(
                    after,
                    #[trigger] after.candidates[i],
                ) by {
                    assert(self.knows(run, run.candidates[i]));
                }
                assert forall|i: int| 0 <= i < after.nearest.len() implies self.knows(
                    after,
                    #[trigger] after.nearest[i],
                ) by {
                    assert(self.knows(run, run.nearest[i]));
                }
            }
        }
    }

    /// Following links keeps it all.
    pub proof fn lemma_expand_keeps(self, run: Run<U>, links: Seq<usize>)
        requires
            self.sound(run),
            self.fits(run),
            forall|i: int| 0 <= i < links.len() ==> (#[trigger] links[i]) < self.layer.ids.len(),
        ensures
            self.keeps(run, self.expand(run, links)),
        decreases links.len(),
    {
        if links.len() > 0 {
            assert forall|i: int| 0 <= i < links.drop_last().len() implies (
            #[trigger] links.drop_last()[i]) < self.layer.ids.len() by {
                assert(links.drop_last()[i] == links[i]);
            }
            self.lemma_expand_keeps(run, links.drop_last());
            assert(links[links.len() - 1] == links.last());
            self.lemma_visit_keeps(self.expand(run, links.drop_last()), links.last());
        }
    }

    /// Taking out a candidate leaves a run as sound as it was.
    pub proof fn lemma_pop_sound(self, run: Run<U>, position: int)
        requires
            self.sound(run),
            0 <= position < run.candidates.len(),
        ensures
            self.sound(Run { candidates: run.candidates.remove(position), ..run }),
    {
        let popped = Run { candidates: run.candidates.remove(position), ..run };
        assert forall|i: int| 0 <= i < popped.candidates.len() implies self.knows(
            popped,
            #[trigger] popped.candidates[i],
        ) by {
            let old = if i < position {
                i
            } else {
                i + 1
            };
            assert(popped.candidates[i] == run.candidates[old]);
            assert(self.knows(run, run.candidates[old]));
        }
        assert forall|i: int| 0 <= i < popped.nearest.len() implies self.knows(
            popped,
            #[trigger] popped.nearest[i],
        ) by {
            assert(self.knows(run, run.nearest[i]));
        }
    }

    /// Expanding a candidate keeps it all.
    pub proof fn lemma_step_keeps(self, run: Run<U>, position: int)
        requires
            self.layer.closed(),
            self.sound(run),
            self.fits(run),
            0 <= position < run.candidates.len(),
        ensures
            self.keeps(run, self.step(run, position)),
    {
        self.lemma_pop_sound(run, position);
        assert(self.knows(run, run.candidates[position]));
        self.lemma_expand_keeps(
            Run { candidates: run.candidates.remove(position), ..run },
            self.layer.links[run.candidates[position].index as int],
        );
    }

    /// Soundness does not depend on what may be reported.
    pub proof fn lemma_sound_for_any(self, other: Self, run: Run<U>)
        requires
            self.layer == other.layer,
            self.distance == other.distance,
            self.sound(run),
        ensures
            other.sound(run),
    {
        assert forall|i: int| 0 <= i < run.candidates.len() implies other.knows(
            run,
            #[trigger] run.candidates[i],
        ) by {
            assert(self.knows(run, run.candidates[i]));
        }
        assert forall|i: int| 0 <= i < run.nearest.len() implies other.knows(
            run,
            #[trigger] run.nearest[i],
        ) by {
            assert(self.knows(run, run.nearest[i]));
        }
    }

    /// A scrub leaves a list of one node as it is or empty.
    pub proof fn lemma_scrub(self, run: Run<U>)
        requires
            self.sound(run),
            run.nearest.len() == 1,
        ensures
            self.scrub(run) == if (self.accept)(self.layer.ids[run.nearest[0].index as int]) {
                run
            } else {
                Run { nearest: Seq::empty(), ..run }
            },
            self.sound(self.scrub(run)),
            self.screened(self.scrub(run)),
    {
        reveal_with_fuel(Seq::filter, 2);
        let may = |node: Neighbor<U>| (self.accept)(self.layer.ids[node.index as int]);
        assert(run.nearest.drop_last() =~= Seq::empty());
        assert(run.nearest.last() == run.nearest[0]);
        if may(run.nearest[0]) {
            assert(run.nearest.filter(may) =~= run.nearest);
        } else {
            assert(run.nearest.filter(may) =~= Seq::empty());
            let after = self.scrub(run);
            assert forall|i: int| 0 <= i < after.candidates.len() implies self.knows(
                after,
                #[trigger] after.candidates[i],
            ) by {
                assert(self.knows(run, run.candidates[i]));
            }
        }
    }

    /// A depth-first search keeps it all.
    pub proof fn lemma_depth_first_keeps(self, run: Run<U>)
        requires
            self.layer.closed(),
            self.sound(run),
            self.fits(run),
        ensures
            self.keeps(run, self.depth_first(run)),
        decreases unseen(run.seen), run.candidates.len(),
    {
        if run.candidates.len() > 0 {
            let last = run.candidates.len() - 1;
            self.lemma_step_keeps(run, last);
            self.lemma_step_descends(run, last);
            self.lemma_depth_first_keeps(self.step(run, last));
        }
    }

    /// A best-first search keeps it all.
    pub proof fn lemma_best_first_keeps(self, run: Run<U>)
        requires
            self.layer.closed(),
            self.sound(run),
            self.fits(run),
        ensures
            self.keeps(run, self.best_first(run)),
        decreases unseen(run.seen), run.candidates.len(),
    {
        if run.candidates.len() > 0 && !self.saturated(run) {
            lemma_closest(run.candidates);
            let position = run.candidates.index_of(closest(run.candidates));
            self.lemma_step_keeps(run, position);
            self.lemma_step_descends(run, position);
            self.lemma_best_first_keeps(self.step(run, position));
        }
    }
}

} // verus!
