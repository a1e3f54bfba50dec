//! Searches over one layer of the graph.

use crate::feature_store::FeatureStore;
use crate::heap::{heap_pop, heap_push, is_heap, lemma_heap_first};
use crate::metric::{query_distance, Metric, Neighbor};
use crate::nodes::Layer;
use crate::ranking::{lemma_rank, lemma_ranked_insert, place_of, rank, ranked_insert, sorted};
use crate::seen::{seen_ids, SeenSet};
use crate::tombstones::{alive, Tombstones};
use crate::traverse::{
    closest, lemma_closest, lemma_closest_unordered, same_but_order, unseen, Beam, LayerView, Run,
};
use crate::unit::Unit;
use vstd::prelude::*;

verus! {

/// Contains all the state used when searching the index.
///
/// It is scratch space: a search sets it up anew, and what it holds beforehand does
/// not matter. Handing the same one to many searches saves their allocations.
#[derive(Debug)]
pub struct Searcher<U> {
    candidates: Vec<Neighbor<U>>,
    nearest: Vec<Neighbor<U>>,
    seen: SeenSet,
}

impl<U> View for Searcher<U> {
    type V = Run<U>;

    closed spec fn view(&self) -> Run<U> {
        Run {
            candidates: self.candidates@,
            nearest: self.nearest@,
            seen: seen_ids(self.seen),
        }
    }
}

/// A run that has not begun.
pub open spec fn blank<U>() -> Run<U> {
    Run { candidates: Seq::empty(), nearest: Seq::empty(), seen: Set::empty() }
}

/// A run that stands at one node.
pub open spec fn standing_at<U>(node: Neighbor<U>, id: usize) -> Run<U> {
    Run { candidates: seq![node], nearest: seq![node], seen: set![id] }
}

impl<U> Searcher<U> {
    /// Makes a searcher.
    pub fn new() -> (searcher: Self)
        ensures
            searcher@ == blank::<U>(),
    {
        Searcher { candidates: Vec::new(), nearest: Vec::new(), seen: SeenSet::empty() }
    }

    /// Forgets whatever was searched.
    pub(crate) fn clear(&mut self)
        ensures
            final(self)@ == blank::<U>(),
    {
        self.candidates.clear();
        self.nearest.clear();
        self.seen.clear();
    }

    /// The closest nodes found, closest first.
    pub(crate) fn found(&self) -> (nearest: &Vec<Neighbor<U>>)
        ensures
            nearest@ == self@.nearest,
    {
        &self.nearest
    }
}

impl<U> Default for Searcher<U> {
    fn default() -> (searcher: Self)
        ensures
            searcher@ == blank::<U>(),
    {
        Searcher::new()
    }
}

impl<U: Clone> Clone for Searcher<U> {
    fn clone(&self) -> (copy: Self)
        ensures
            copy@.seen == self@.seen,
            copy@.candidates.len() == self@.candidates.len(),
            forall|i: int|
                0 <= i < self@.candidates.len() ==> cloned(
                    #[trigger] self@.candidates[i],
                    copy@.candidates[i],
                ),
            copy@.nearest.len() == self@.nearest.len(),
            forall|i: int|
                0 <= i < self@.nearest.len() ==> cloned(
                    #[trigger] self@.nearest[i],
                    copy@.nearest[i],
                ),
    {
        Searcher {
            candidates: self.candidates.clone(),
            nearest: self.nearest.clone(),
            seen: self.seen.clone(),
        }
    }
}

impl<U: Unit> Searcher<U> {
    /// Starts over from one node.
    pub(crate) fn stand_at(&mut self, node: Neighbor<U>, id: usize)
        ensures
            final(self)@ == standing_at(node, id),
    {
        self.clear();
        self.candidates.push(node);
        self.nearest.push(node);
        let fresh = self.seen.insert(id);
        assert(self@ =~= standing_at(node, id));
    }

    /// Drops what was found, but not what waits to be expanded.
    pub(crate) fn forget_found(&mut self)
        ensures
            final(self)@ == (Run { nearest: Seq::empty(), ..old(self)@ }),
    {
        self.nearest.clear();
    }

    /// Puts a node where it belongs among those found.
    fn keep(&mut self, found: Neighbor<U>, place: usize, width: usize)
        requires
            place == rank(old(self)@.nearest, found.distance),
            place != width,
            old(self)@.nearest.len() <= width || width == 0,
        ensures
            final(self)@ == (Run {
                nearest: ranked_insert(old(self)@.nearest, found, width as nat),
                ..old(self)@
            }),
    {
        proof {
            lemma_rank(self.nearest@, found.distance);
        }
        if self.nearest.len() == width {
            let worst = self.nearest.pop();
        }
        self.nearest.insert(place, found);
    }
}

/// Which ids may be reported when those of `dead` may not, nor those that `pass`
/// rejects.
pub open spec fn passing(dead: Set<usize>, pass: spec_fn(usize) -> bool) -> spec_fn(
    usize,
) -> bool {
    |id: usize| !dead.contains(id) && pass(id)
}

/// Whether a filter can answer for an id only as `pass` does.
pub open spec fn decides<F: Fn(usize) -> bool>(filter: F, pass: spec_fn(usize) -> bool) -> bool {
    forall|id: usize, answer: bool| #[trigger]
        call_ensures(filter, (id,), answer) ==> answer == pass(id)
}

/// Whether `pass` gives only answers that the filter can give, wherever it can give
/// one.
pub open spec fn may_answer<F: Fn(usize) -> bool>(
    filter: F,
    pass: spec_fn(usize) -> bool,
) -> bool {
    forall|id: usize, answer: bool| #[trigger]
        call_ensures(filter, (id,), answer) ==> call_ensures(filter, (id,), pass(id))
}

/// Whether a filter can have accepted every node of a list.
pub open spec fn agreed<U, F: Fn(usize) -> bool>(
    filter: F,
    layer: LayerView,
    list: Seq<Neighbor<U>>,
) -> bool {
    forall|i: int|
        0 <= i < list.len() ==> call_ensures(
            filter,
            (layer.ids[(#[trigger] list[i]).index as int],),
            true,
        )
}

/// Whether `pass` gives the answers that were given.
spec fn repeats(answers: Map<usize, bool>, pass: spec_fn(usize) -> bool) -> bool {
    forall|id: usize| #[trigger] answers.contains_key(id) ==> pass(id) == answers[id]
}

/// Answers that were given, completed to a function that may have given them.
spec fn completed<F: Fn(usize) -> bool>(filter: F, answers: Map<usize, bool>) -> spec_fn(
    usize,
) -> bool {
    |id: usize|
        if answers.contains_key(id) {
            answers[id]
        } else {
            call_ensures(filter, (id,), true)
        }
}

/// A query: what distances are measured from, and how.
pub struct Probe<'a, Met, T, S> {
    /// The metric.
    pub metric: &'a Met,
    /// The features of the nodes.
    pub features: &'a S,
    /// The feature that is searched for.
    pub point: &'a T,
}

impl<'a, T, Met: Metric<T>, S: FeatureStore<T>> Probe<'a, Met, T, S> {
    /// The distance to the node of each id.
    pub open spec fn distance(self) -> spec_fn(usize) -> Met::Unit {
        query_distance(*self.metric, *self.point, self.features.features())
    }

    /// Whether the nodes of the given ids can be measured.
    pub open spec fn measures(self, ids: Seq<usize>) -> bool {
        forall|i: int|
            0 <= i < ids.len() ==> (#[trigger] ids[i]) < self.features.features().len()
    }

    /// Whether a layer can be searched.
    pub open spec fn reaches(self, layer: LayerView) -> bool {
        layer.closed() && self.measures(layer.ids)
    }

    /// The search over a layer for `width` nodes that are not in `dead`.
    pub open spec fn beam(self, layer: LayerView, dead: Set<usize>, width: usize) -> Beam<
        Met::Unit,
    > {
        Beam {
            layer,
            distance: self.distance(),
            accept: alive(dead),
            width: width as nat,
        }
    }

    /// The search over a layer for `width` nodes that are not in `dead` and that
    /// `pass` does not reject.
    pub open spec fn filtered_beam(
        self,
        layer: LayerView,
        dead: Set<usize>,
        pass: spec_fn(usize) -> bool,
        width: usize,
    ) -> Beam<Met::Unit> {
        Beam {
            layer,
            distance: self.distance(),
            accept: passing(dead, pass),
            width: width as nat,
        }
    }

    /// Measures how far the node of an id is.
    pub fn measure(&self, id: usize) -> (distance: Met::Unit)
        requires
            id < self.features.features().len(),
        ensures
            distance == (self.distance())(id),
    {
        self.metric.distance(self.point, self.features.get_feature(id))
    }

    /// Follows one link as far as the node's rank. `None` if the node was come upon
    /// before or is dropped.
    fn reach<L: Layer>(
        &self,
        layer: &L,
        searcher: &mut Searcher<Met::Unit>,
        link: usize,
        width: usize,
    ) -> (reached: Option<(Neighbor<Met::Unit>, usize)>)
        requires
            self.reaches(layer.layer()),
            link < layer.layer().ids.len(),
            sorted(old(searcher)@.nearest),
        ensures
            ({
                let id = layer.layer().ids[link as int];
                let found = Neighbor { index: link, distance: (self.distance())(id) };
                let place = rank(old(searcher)@.nearest, found.distance);
                if old(searcher)@.seen.contains(id) {
                    reached is None && final(searcher)@ == old(searcher)@
                } else {
                    &&& final(searcher)@ == (Run {
                        seen: old(searcher)@.seen.insert(id),
                        ..old(searcher)@
                    })
                    &&& reached == if place == width {
                        None
                    } else {
                        Some((found, place as usize))
                    }
                    &&& place <= usize::MAX
                }
            }),
    {
        let id: usize = layer.id(link);
        if searcher.seen.insert(id) {
            let distance = self.measure(id);
            let place: usize = place_of(&searcher.nearest, distance);
            if place != width {
                return Some((Neighbor { index: link, distance }, place));
            }
        } else {
            assert(searcher@ =~= old(searcher)@);
        }
        None
    }

    /// Searches a layer from the candidates of `searcher`, expanding what it found
    /// last, for the `width` closest nodes that are not in `dead`.
    pub fn depth_first<L: Layer>(
        &self,
        layer: &L,
        searcher: &mut Searcher<Met::Unit>,
        dead: &Tombstones,
        width: usize,
    )
        requires
            self.reaches(layer.layer()),
            self.beam(layer.layer(), dead@, width).sound(old(searcher)@),
            self.beam(layer.layer(), dead@, width).fits(old(searcher)@),
        ensures
            final(searcher)@ == self.beam(layer.layer(), dead@, width).depth_first(
                old(searcher)@,
            ),
    {
        let ghost beam = self.beam(layer.layer(), dead@, width);
        while searcher.candidates.len() > 0
            invariant
                self.reaches(layer.layer()),
                beam == self.beam(layer.layer(), dead@, width),
                beam.sound(searcher@),
                beam.fits(searcher@),
                beam.depth_first(searcher@) == beam.depth_first(old(searcher)@),
            decreases unseen(searcher@.seen), searcher@.candidates.len(),
        {
            let ghost before = searcher@;
            let ghost last = before.candidates.len() - 1;
            proof {
                beam.lemma_step_keeps(before, last);
                beam.lemma_step_descends(before, last);
                assert(beam.knows(before, before.candidates[last]));
            }
            let top = match searcher.candidates.pop() {
                Some(top) => top,
                None => {
                    return ;
                },
            };
            let links = layer.links(top.index);
            let ghost popped = searcher@;
            proof {
                assert(popped.candidates =~= before.candidates.remove(last));
                assert(links@ == beam.layer.links[top.index as int]);
                assert(links@.take(0) =~= Seq::<usize>::empty());
                beam.lemma_pop_sound(before, last);
            }
            let mut next: usize = 0;
            while next < links.len()
                invariant
                    self.reaches(layer.layer()),
                    beam == self.beam(layer.layer(), dead@, width),
                    next <= links@.len(),
                    forall|i: int|
                        0 <= i < links@.len() ==> (#[trigger] links@[i])
                            < layer.layer().ids.len(),
                    searcher@ == beam.expand(popped, links@.take(next as int)),
                    beam.sound(searcher@),
                    beam.fits(searcher@),
                decreases links@.len() - next,
            {
                let link: usize = links[next];
                proof {
                    beam.lemma_visit_keeps(searcher@, link);
                    assert(links@.take(next + 1).drop_last() =~= links@.take(next as int));
                    assert(links@.take(next + 1).last() == link);
                }
                match self.reach(layer, searcher, link, width) {
                    Some((found, place)) => {
                        if !dead.contains(layer.id(link)) {
                            searcher.keep(found, place, width);
                        }
                        searcher.candidates.push(found);
                    },
                    None => {},
                }
                assert(searcher@ =~= beam.expand(popped, links@.take(next + 1)));
                next += 1;
            }
            assert(links@.take(next as int) =~= links@);
        }
    }

    /// Searches a layer from the one node that `searcher` stands at, expanding the
    /// closest candidate, for the `width` closest nodes that are not in `dead` and
    /// that the filter does not reject.
    pub fn best_first<L: Layer, F: Fn(usize) -> bool>(
        &self,
        layer: &L,
        searcher: &mut Searcher<Met::Unit>,
        dead: &Tombstones,
        filter: &F,
        width: usize,
    )
        requires
            self.reaches(layer.layer()),
            self.beam(layer.layer(), dead@, width).sound(old(searcher)@),
            old(searcher)@.candidates.len() == 1,
            old(searcher)@.nearest.len() == 1,
            width > 0,
            forall|i: int|
                0 <= i < layer.layer().ids.len() ==> call_requires(
                    *filter,
                    (#[trigger] layer.layer().ids[i],),
                ),
        ensures
            forall|pass: spec_fn(usize) -> bool| #[trigger]
                decides(*filter, pass) ==> ({
                    let beam = self.filtered_beam(layer.layer(), dead@, pass, width);
                    same_but_order(
                        final(searcher)@,
                        beam.best_first(beam.scrub(old(searcher)@)),
                    )
                }),
            exists|pass: spec_fn(usize) -> bool| #[trigger]
                may_answer(*filter, pass) && ({
                    let beam = self.filtered_beam(layer.layer(), dead@, pass, width);
                    same_but_order(
                        final(searcher)@,
                        beam.best_first(beam.scrub(old(searcher)@)),
                    )
                }),
            agreed(*filter, layer.layer(), final(searcher)@.nearest),
    {
        let ghost start = searcher@;
        let ghost plain = self.beam(layer.layer(), dead@, width);
        // What the filter answered so far.
        let ghost mut answers: Map<usize, bool> = Map::empty();
        proof {
            assert(plain.knows(start, start.nearest[0]));
        }
        let seed: usize = layer.id(searcher.nearest[0].index);
        if dead.contains(seed) {
            searcher.forget_found();
        } else {
            let answer = filter(seed);
            proof {
                answers = answers.insert(seed, answer);
            }
            if !answer {
                searcher.forget_found();
            }
        }
        // Where the search stands, for every function that gives those answers.
        let ghost mut model = searcher@;
        proof {
            assert forall|pass: spec_fn(usize) -> bool| #[trigger]
                repeats(answers, pass) implies self.filtered_beam(
                layer.layer(),
                dead@,
                pass,
                width,
            ).scrub(start) == model by {
                let beam = self.filtered_beam(layer.layer(), dead@, pass, width);
                if !dead@.contains(seed) {
                    assert(answers.contains_key(seed));
                }
                plain.lemma_sound_for_any(beam, start);
                beam.lemma_scrub(start);
            }
            let pass = completed(*filter, answers);
            let beam = self.filtered_beam(layer.layer(), dead@, pass, width);
            assert(repeats(answers, pass));
            plain.lemma_sound_for_any(beam, start);
            beam.lemma_scrub(start);
            beam.lemma_sound_for_any(plain, model);
        }
        while searcher.candidates.len() > 0
            invariant
                self.reaches(layer.layer()),
                width > 0,
                plain == self.beam(layer.layer(), dead@, width),
                forall|i: int|
                    0 <= i < layer.layer().ids.len() ==> call_requires(
                        *filter,
                        (#[trigger] layer.layer().ids[i],),
                    ),
                forall|id: usize| #[trigger]
                    answers.contains_key(id) ==> call_ensures(*filter, (id,), answers[id])
                        && model.seen.contains(id),
                agreed(*filter, layer.layer(), searcher@.nearest),
                is_heap(searcher@.candidates),
                same_but_order(searcher@, model),
                plain.sound(model),
                plain.fits(model),
                forall|pass: spec_fn(usize) -> bool| #[trigger]
                    repeats(answers, pass) ==> ({
                        let beam = self.filtered_beam(layer.layer(), dead@, pass, width);
                        beam.best_first(model) == beam.best_first(beam.scrub(start))
                    }),
            ensures
                searcher@.candidates.len() == 0 || plain.saturated(model),
            decreases unseen(model.seen), model.candidates.len(),
        {
            let ghost before = model;
            let ghost position = before.candidates.index_of(closest(before.candidates));
            let top = searcher.candidates[0];
            proof {
                lemma_heap_first(searcher@.candidates);
                lemma_closest(searcher@.candidates);
                lemma_closest_unordered(searcher@.candidates, before.candidates);
                lemma_closest(before.candidates);
                plain.lemma_pop_sound(before, position);
                assert(plain.knows(before, before.candidates[position]));
            }
            let count: usize = searcher.nearest.len();
            if count == width && searcher.nearest[count - 1].distance.less(top.distance) {
                break ;
            }
            let first = heap_pop(&mut searcher.candidates);
            let links = layer.links(first.index);
            let ghost popped = Run { candidates: before.candidates.remove(position), ..before };
            proof {
                broadcast use vstd::seq_lib::to_multiset_remove;

                model = popped;
                assert(links@.take(0) =~= Seq::<usize>::empty());
            }
            let mut next: usize = 0;
            while next < links.len()
                invariant
                    self.reaches(layer.layer()),
                    plain == self.beam(layer.layer(), dead@, width),
                    forall|i: int|
                        0 <= i < layer.layer().ids.len() ==> call_requires(
                            *filter,
                            (#[trigger] layer.layer().ids[i],),
                        ),
                    next <= links@.len(),
                    forall|i: int|
                        0 <= i < links@.len() ==> (#[trigger] links@[i])
                            < layer.layer().ids.len(),
                    forall|id: usize| #[trigger]
                        answers.contains_key(id) ==> call_ensures(*filter, (id,), answers[id])
                            && model.seen.contains(id),
                    agreed(*filter, layer.layer(), searcher@.nearest),
                    is_heap(searcher@.candidates),
                    same_but_order(searcher@, model),
                    plain.sound(model),
                    plain.fits(model),
                    forall|pass: spec_fn(usize) -> bool| #[trigger]
                        repeats(answers, pass) ==> ({
                            let beam = self.filtered_beam(layer.layer(), dead@, pass, width);
                            &&& beam.best_first(before) == beam.best_first(beam.scrub(start))
                            &&& beam.expand(popped, links@.take(next as int)) == model
                        }),
                decreases links@.len() - next,
            {
                let ghost here = model;
                let ghost answered = answers;
                let link: usize = links[next];
                let id: usize = layer.id(link);
                match self.reach(layer, searcher, link, width) {
                    Some((found, place)) => {
                        if !dead.contains(id) {
                            let answer = filter(id);
                            proof {
                                answers = answers.insert(id, answer);
                            }
                            if answer {
                                proof {
                                    lemma_ranked_insert(searcher@.nearest, found, width as nat);
                                }
                                searcher.keep(found, place, width);
                            }
                        }
                        heap_push(&mut searcher.candidates, found);
                    },
                    None => {},
                }
                proof {
                    broadcast use vstd::seq_lib::to_multiset_build;

                    let whole = completed(*filter, answers);
                    assert(repeats(answers, whole));
                    let beam = self.filtered_beam(layer.layer(), dead@, whole, width);
                    model = beam.visit(here, link);
                    plain.lemma_sound_for_any(beam, here);
                    beam.lemma_visit_keeps(here, link);
                    beam.lemma_sound_for_any(plain, model);
                    assert(links@.take(next + 1).drop_last() =~= links@.take(next as int));
                    assert(links@.take(next + 1).last() == link);
                    assert forall|pass: spec_fn(usize) -> bool| #[trigger]
                        repeats(answers, pass) implies ({
                        let beam = self.filtered_beam(layer.layer(), dead@, pass, width);
                        &&& beam.best_first(before) == beam.best_first(beam.scrub(start))
                        &&& beam.expand(popped, links@.take(next + 1)) == model
                    }) by {
                        assert(repeats(answered, pass)) by {
                            assert forall|old: usize| #[trigger]
                                answered.contains_key(old) implies pass(old)
                                == answered[old] by {
                                assert(answers.contains_key(old));
                            }
                        }
                        if answers.contains_key(id) {
                            assert(pass(id) == whole(id));
                        }
                    }
                }
                next += 1;
            }
            proof {
                assert(links@.take(next as int) =~= links@);
                assert forall|pass: spec_fn(usize) -> bool| #[trigger]
                    repeats(answers, pass) implies ({
                    let beam = self.filtered_beam(layer.layer(), dead@, pass, width);
                    beam.best_first(model) == beam.best_first(beam.scrub(start))
                }) by {
                    let beam = self.filtered_beam(layer.layer(), dead@, pass, width);
                    assert(beam.step(before, position) == model);
                }
                let whole = completed(*filter, answers);
                assert(repeats(answers, whole));
                let beam = self.filtered_beam(layer.layer(), dead@, whole, width);
                assert(beam.step(before, position) == model);
                beam.lemma_step_descends(before, position);
            }
        }
        proof {
            broadcast use vstd::seq_lib::to_multiset_len;

            assert(searcher@.candidates.len() == searcher@.candidates.to_multiset().len());
            assert(model.candidates.len() == model.candidates.to_multiset().len());
            let whole = completed(*filter, answers);
            assert(repeats(answers, whole));
            assert(may_answer(*filter, whole));
            assert forall|pass: spec_fn(usize) -> bool| #[trigger]
                decides(*filter, pass) implies ({
                let beam = self.filtered_beam(layer.layer(), dead@, pass, width);
                same_but_order(searcher@, beam.best_first(beam.scrub(start)))
            }) by {
                assert(repeats(answers, pass));
            }
        }
    }
}

} // verus!
