//! What holds of an index as a whole.

use crate::feature_store::FeatureStore;
use crate::hnsw_const::Hnsw;
use crate::hnsw_runtime::HnswRuntime;
use crate::join::{chosen, lemma_joined_links, offered, simple};
use crate::metric::Metric;
use crate::model::{anything, empty_index, first_live, lowered, raised, GraphView, IndexView};
use crate::nodes::{lemma_live_len, live, live_len, tidy, upper_layer, Layer, NodeView, Slots};
use crate::params::{capped_level, law_params_are_their_values, LevelSource, MAX_LEVEL};
use crate::parts::{fit_together, graph_of};
use crate::ranking::sorted;
use crate::search::passing;
use crate::thorough::waits;
use crate::tombstones::{lemma_live_below, live_below};
use crate::traverse::{lemma_closest, Run};
use crate::unit::Unit;
use crate::wire::{law_slot_round_trip, slot_of, wire_of, LEGACY_32_BIT_EMPTY};
use vstd::prelude::*;

verus! {

// ---------------------------------------------------------------------------
// Searches
// ---------------------------------------------------------------------------

impl<T, Met: Metric<T>> IndexView<Met, T> {
    /// The results of a search stand in ascending order of distance.
    pub proof fn law_results_ascend(self, query: T, ef: nat, pass: spec_fn(usize) -> bool)
        requires
            self.searchable(),
        ensures
            sorted(self.nearest(query, ef, pass)),
    {
        if ef > 0 && self.features.len() > 0 {
            self.lemma_zero_run(query, ef, pass);
        }
    }

    /// Every result is a node, at its true distance.
    pub proof fn law_results_are_exact(self, query: T, ef: nat, pass: spec_fn(usize) -> bool)
        requires
            self.searchable(),
        ensures
            forall|i: int|
                0 <= i < self.nearest(query, ef, pass).len() ==> {
                    let result = #[trigger] self.nearest(query, ef, pass)[i];
                    &&& result.index < self.len()
                    &&& result.distance == self.metric.spec_distance(
                        query,
                        self.features[result.index as int],
                    )
                },
    {
        if ef > 0 && self.features.len() > 0 {
            let beam = self.zero_beam(query, ef, pass);
            let run = self.zero_run(query, ef, pass);
            self.lemma_zero_run(query, ef, pass);
            assert forall|i: int| 0 <= i < run.nearest.len() implies {
                let result = #[trigger] run.nearest[i];
                &&& result.index < self.len()
                &&& result.distance == self.metric.spec_distance(
                    query,
                    self.features[result.index as int],
                )
            } by {
                assert(beam.knows(run, run.nearest[i]));
            }
        }
    }

    /// No node is reported twice.
    pub proof fn law_results_are_distinct(self, query: T, ef: nat, pass: spec_fn(usize) -> bool)
        requires
            self.searchable(),
        ensures
            forall|i: int, j: int|
                0 <= i < j < self.nearest(query, ef, pass).len() ==> (
                #[trigger] self.nearest(query, ef, pass)[i]).index != (
                #[trigger] self.nearest(query, ef, pass)[j]).index,
    {
        if ef > 0 && self.features.len() > 0 {
            self.lemma_zero_run(query, ef, pass);
        }
    }

    /// No soft-deleted node is reported, and none that the filter rejects.
    pub proof fn law_results_are_admissible(self, query: T, ef: nat, pass: spec_fn(usize) -> bool)
        requires
            self.searchable(),
        ensures
            forall|i: int|
                0 <= i < self.nearest(query, ef, pass).len() ==> {
                    let result = #[trigger] self.nearest(query, ef, pass)[i];
                    !self.dead.contains(result.index) && pass(result.index)
                },
    {
        if ef > 0 && self.features.len() > 0 {
            let beam = self.zero_beam(query, ef, pass);
            let run = self.zero_run(query, ef, pass);
            self.lemma_zero_run(query, ef, pass);
            assert forall|i: int| 0 <= i < run.nearest.len() implies {
                let result = #[trigger] run.nearest[i];
                !self.dead.contains(result.index) && pass(result.index)
            } by {
                assert(beam.knows(run, run.nearest[i]));
                assert((beam.accept)(beam.layer.ids[run.nearest[i].index as int]));
            }
        }
    }

    /// At most `ef` nodes are reported.
    pub proof fn law_results_are_bounded(self, query: T, ef: nat, pass: spec_fn(usize) -> bool)
        requires
            self.searchable(),
        ensures
            self.nearest(query, ef, pass).len() <= ef,
    {
        if ef > 0 && self.features.len() > 0 {
            self.lemma_zero_run(query, ef, pass);
        }
    }

    /// An `ef` of zero finds nothing, at any level.
    pub proof fn law_zero_ef_finds_nothing(
        self,
        query: T,
        level: nat,
        pass: spec_fn(usize) -> bool,
    )
        ensures
            self.nearest(query, 0, pass).len() == 0,
            self.nearest_at(query, 0, level).len() == 0,
    {
    }

    /// The results are the closest of all the admissible nodes that the search came
    /// upon: one of those that is not reported is no closer than any that is, and
    /// only left out because there are `ef` of them.
    pub proof fn law_results_are_the_best_seen(
        self,
        query: T,
        ef: nat,
        pass: spec_fn(usize) -> bool,
        id: usize,
    )
        requires
            self.searchable(),
            self.len() > 0,
            ef > 0,
            self.zero_run(query, ef, pass).seen.contains(id),
            !self.dead.contains(id),
            pass(id),
        ensures
            ({
                let results = self.nearest(query, ef, pass);
                ||| exists|i: int|
                    0 <= i < results.len() && (#[trigger] results[i]).index == id
                ||| results.len() == ef && forall|i: int|
                    0 <= i < results.len() ==> (#[trigger] results[i]).distance.key()
                        <= self.metric.spec_distance(query, self.features[id as int]).key()
            }),
    {
        let beam = self.zero_beam(query, ef, pass);
        let run = self.zero_run(query, ef, pass);
        self.lemma_zero_run(query, ef, pass);
        self.lemma_zero_run_best(query, ef, pass);
        assert((beam.accept)(id));
        if beam.lists(run, id) {
            let i = choose|i: int|
                0 <= i < run.nearest.len() && beam.layer.ids[(
                #[trigger] run.nearest[i]).index as int] == id;
            assert(beam.knows(run, run.nearest[i]));
            assert(run.nearest[i].index == id);
        } else {
            assert(beam.outdone(run, id));
            let last = run.nearest.len() - 1;
            assert forall|i: int| 0 <= i < run.nearest.len() implies (
            #[trigger] run.nearest[i]).distance.key() <= self.metric.spec_distance(
                query,
                self.features[id as int],
            ).key() by {
                if i < last {
                    assert(run.nearest[i].distance.key() <= run.nearest[last].distance.key());
                }
            }
        }
    }

    proof fn lemma_zero_run_best(self, query: T, ef: nat, pass: spec_fn(usize) -> bool)
        requires
            self.wf(),
            self.len() > 0,
            ef > 0,
        ensures
            self.zero_beam(query, ef, pass).best(self.zero_run(query, ef, pass)),
    {
        let beam = self.zero_beam(query, ef, pass);
        let arrival = self.arrival(query, 0);
        let start = beam.scrub(arrival);
        self.lemma_arrival(query, 0, beam.accept, ef);
        self.lemma_arrival_seen(query);
        self.lemma_layer(0);
        beam.lemma_scrub(arrival);
        assert(beam.best(start)) by {
            assert forall|id: usize| #[trigger]
                start.seen.contains(id) && (beam.accept)(id) implies beam.lists(start, id)
                || beam.outdone(start, id) by {
                assert(id == beam.layer.ids[arrival.nearest[0].index as int]);
                assert(beam.layer.ids[start.nearest[0].index as int] == id);
            }
        }
        beam.lemma_best_first_best(start);
    }

    /// A search arrives at a level having come upon one node, where it stands.
    proof fn lemma_arrival_at(self, query: T, level: nat)
        requires
            self.wf(),
            self.len() > 0,
            level <= self.top(),
        ensures
            ({
                let run = self.arrival(query, level);
                &&& run.nearest.len() == 1
                &&& run.candidates == run.nearest
                &&& run.nearest[0].index < self.graph.layer(level).ids.len()
                &&& run.seen =~= set![
                    self.graph.layer(level).ids[run.nearest[0].index as int],
                ]
            }),
    {
        self.lemma_start(query, anything(), 1);
        self.lemma_arrival(query, level, anything(), 1);
        self.lemma_descended_seen(query, self.start(query), self.top(), level);
        let beam = self.beam(query, level, anything(), 1);
        let run = self.arrival(query, level);
        assert(beam.knows(run, run.nearest[0]));
    }

    /// A search arrives in the zero layer having come upon the node that it stands at
    /// and no other.
    proof fn lemma_arrival_seen(self, query: T)
        requires
            self.wf(),
            self.len() > 0,
        ensures
            ({
                let run = self.arrival(query, 0);
                &&& run.nearest.len() == 1
                &&& run.candidates == run.nearest
                &&& run.nearest[0].index < self.len()
                &&& run.seen =~= set![run.nearest[0].index]
            }),
    {
        self.lemma_arrival_at(query, 0);
    }

    proof fn lemma_descended_seen(self, query: T, run: Run<Met::Unit>, from: nat, to: nat)
        requires
            run.candidates == run.nearest,
            exists|id: usize| run.seen == set![id],
        ensures
            ({
                let after = self.descended(query, run, from, to);
                &&& after.candidates == after.nearest
                &&& exists|id: usize| after.seen == set![id]
            }),
        decreases from,
    {
        if from > to {
            let found = self.passage(query, from).depth_first(run);
            let next = lowered(self.graph.layers[from - 1], found);
            let node = self.graph.layers[from - 1][found.nearest[0].index as int];
            assert(next.seen == set![node.zero_node]);
            self.lemma_descended_seen(query, next, (from - 1) as nat, to);
        }
    }

    /// A search that reports fewer than `ef` nodes missed nothing: every admissible
    /// node that links lead to, from where the search entered the zero layer, is
    /// reported. Soft-deleted and rejected nodes are passed through on the way.
    pub proof fn law_short_results_are_complete(
        self,
        query: T,
        ef: nat,
        pass: spec_fn(usize) -> bool,
        path: Seq<usize>,
    )
        requires
            self.searchable(),
            self.len() > 0,
            self.nearest(query, ef, pass).len() < ef,
            self.graph.layer(0).is_path(path),
            path[0] == self.arrival(query, 0).nearest[0].index,
            !self.dead.contains(path.last()),
            pass(path.last()),
        ensures
            exists|i: int|
                0 <= i < self.nearest(query, ef, pass).len() && (#[trigger] self.nearest(
                    query,
                    ef,
                    pass,
                )[i]).index == path.last(),
    {
        let beam = self.zero_beam(query, ef, pass);
        let run = self.zero_run(query, ef, pass);
        let arrival = self.arrival(query, 0);
        let start = beam.scrub(arrival);
        self.lemma_zero_run(query, ef, pass);
        self.lemma_arrival(query, 0, beam.accept, ef);
        self.lemma_arrival_seen(query);
        self.lemma_layer(0);
        beam.lemma_scrub(arrival);
        let entry = arrival.nearest[0].index;
        assert(beam.settled_but(start, None)) by {
            assert forall|index: usize|
                index < beam.layer.ids.len() && start.seen.contains(
                    #[trigger] beam.layer.ids[index as int],
                ) && None::<usize> != Some(index) implies waits(start, index)
                || beam.expanded(start, index) by {
                assert(start.candidates[0].index == index);
            }
        }
        beam.lemma_best_first_settled(start);
        assert(run.seen.contains(entry));
        beam.lemma_path_seen(run, path);
        let id = path.last();
        assert(path[path.len() - 1] == id);
        assert(run.seen.contains(id));
        self.law_results_are_the_best_seen(query, ef, pass, id);
    }

    /// A search for more nodes than there are misses nothing that links lead to.
    pub proof fn law_wide_searches_are_complete(
        self,
        query: T,
        ef: nat,
        pass: spec_fn(usize) -> bool,
        path: Seq<usize>,
    )
        requires
            self.searchable(),
            0 < self.len() < ef,
            self.graph.layer(0).is_path(path),
            path[0] == self.arrival(query, 0).nearest[0].index,
            !self.dead.contains(path.last()),
            pass(path.last()),
        ensures
            exists|i: int|
                0 <= i < self.nearest(query, ef, pass).len() && (#[trigger] self.nearest(
                    query,
                    ef,
                    pass,
                )[i]).index == path.last(),
    {
        let results = self.nearest(query, ef, pass);
        self.law_results_are_exact(query, ef, pass);
        self.law_results_are_distinct(query, ef, pass);
        let indices = Seq::new(results.len(), |i: int| results[i].index as int);
        assert(indices.no_duplicates()) by {
            assert forall|i: int, j: int| 0 <= i < indices.len() && 0 <= j < indices.len() && i
                != j implies indices[i] != indices[j] by {
                assert(results[i].index != results[j].index || i == j);
            }
        }
        indices.unique_seq_to_set();
        vstd::set_lib::lemma_int_range(0, self.len() as int);
        let all = vstd::set_lib::set_int_range(0, self.len() as int);
        assert(indices.to_set().subset_of(all)) by {
            assert forall|x: int| indices.to_set().contains(x) implies all.contains(x) by {
                let i = indices.index_of(x);
                assert(results[i].index < self.len());
            }
        }
        vstd::set_lib::lemma_len_subset(indices.to_set(), all);
        self.law_short_results_are_complete(query, ef, pass, path);
    }

    /// No link leads from a result to anything better: whatever a reported node links
    /// to is reported too if it is admissible, or there are `ef` results that are no
    /// farther.
    pub proof fn law_results_are_locally_best(
        self,
        query: T,
        ef: nat,
        pass: spec_fn(usize) -> bool,
        i: int,
        link: usize,
    )
        requires
            self.searchable(),
            0 <= i < self.nearest(query, ef, pass).len(),
            self.graph.zero[self.nearest(query, ef, pass)[i].index as int].contains(link),
            !self.dead.contains(link),
            pass(link),
        ensures
            ({
                let results = self.nearest(query, ef, pass);
                ||| exists|j: int|
                    0 <= j < results.len() && (#[trigger] results[j]).index == link
                ||| results.len() == ef && forall|j: int|
                    0 <= j < results.len() ==> (#[trigger] results[j]).distance.key()
                        <= self.metric.spec_distance(query, self.features[link as int]).key()
            }),
    {
        let beam = self.zero_beam(query, ef, pass);
        let run = self.zero_run(query, ef, pass);
        let arrival = self.arrival(query, 0);
        let start = beam.scrub(arrival);
        self.lemma_arrival(query, 0, beam.accept, ef);
        self.lemma_arrival_seen(query);
        self.lemma_layer(0);
        beam.lemma_scrub(arrival);
        self.lemma_zero_run(query, ef, pass);
        assert(beam.tended_but(start, None)) by {
            assert forall|k: int|
                0 <= k < start.nearest.len() && None::<usize> != Some(
                    (#[trigger] start.nearest[k]).index,
                ) implies waits(start, start.nearest[k].index) || beam.expanded(
                start,
                start.nearest[k].index,
            ) by {
                assert(start.candidates[0].index == start.nearest[k].index);
            }
        }
        beam.lemma_best_first_tended(start);
        let index = run.nearest[i].index;
        assert(beam.knows(run, run.nearest[i]));
        assert(beam.expanded(run, index));
        let links = self.graph.zero[index as int];
        let slot = links.index_of(link);
        assert(beam.layer.links[index as int][slot] == link);
        assert(beam.layer.ids[link as int] == link);
        self.law_results_are_the_best_seen(query, ef, pass, link);
    }

    /// The way down is greedy: the node that a search finds above the zero layer is no
    /// farther than anything it links to.
    pub proof fn law_descent_is_greedy(self, query: T, level: nat, link: usize)
        requires
            self.wf(),
            self.len() > 0,
            0 < level <= self.top(),
            self.graph.layer(level).links[self.upper_run(
                query,
                level,
            ).nearest[0].index as int].contains(link),
        ensures
            ({
                let found = self.upper_run(query, level).nearest[0];
                let id = self.graph.layer(level).ids[link as int];
                found.distance.key() <= self.metric.spec_distance(
                    query,
                    self.features[id as int],
                ).key()
            }),
    {
        let beam = self.passage(query, level);
        let run = self.arrival(query, level);
        let after = self.upper_run(query, level);
        self.lemma_arrival(query, level, beam.accept, 1);
        self.lemma_arrival_at(query, level);
        self.lemma_layer(level);
        beam.lemma_depth_first_keeps(run);
        assert(beam.best(run)) by {
            assert forall|id: usize| #[trigger]
                run.seen.contains(id) && (beam.accept)(id) implies beam.lists(run, id)
                || beam.outdone(run, id) by {
                assert(beam.knows(run, run.nearest[0]));
                assert(beam.layer.ids[run.nearest[0].index as int] == id);
            }
        }
        assert(beam.tended_but(run, None)) by {
            assert forall|k: int|
                0 <= k < run.nearest.len() && None::<usize> != Some(
                    (#[trigger] run.nearest[k]).index,
                ) implies waits(run, run.nearest[k].index) || beam.expanded(
                run,
                run.nearest[k].index,
            ) by {
                assert(run.candidates[0].index == run.nearest[k].index);
            }
        }
        beam.lemma_depth_first_tended(run);
        let index = after.nearest[0].index;
        assert(beam.knows(after, after.nearest[0]));
        assert(beam.expanded(after, index));
        let links = beam.layer.links[index as int];
        let slot = links.index_of(link);
        assert(beam.layer.links[index as int][slot] == link);
        let id = beam.layer.ids[link as int];
        assert(after.seen.contains(id));
        assert((beam.accept)(id));
        if beam.lists(after, id) {
            let j = choose|j: int|
                0 <= j < after.nearest.len() && beam.layer.ids[(
                #[trigger] after.nearest[j]).index as int] == id;
            assert(beam.knows(after, after.nearest[j]));
        }
    }

    /// A search reports something if the node where it enters the zero layer is
    /// admissible, and nothing that it reports first is farther than that node.
    pub proof fn law_admissible_entry_gives_a_result(
        self,
        query: T,
        ef: nat,
        pass: spec_fn(usize) -> bool,
    )
        requires
            self.searchable(),
            self.len() > 0,
            ef > 0,
            !self.dead.contains(self.arrival(query, 0).nearest[0].index),
            pass(self.arrival(query, 0).nearest[0].index),
        ensures
            self.nearest(query, ef, pass).len() > 0,
            self.nearest(query, ef, pass)[0].distance.key() <= self.arrival(
                query,
                0,
            ).nearest[0].distance.key(),
    {
        let beam = self.zero_beam(query, ef, pass);
        let arrival = self.arrival(query, 0);
        self.lemma_zero_run(query, ef, pass);
        self.lemma_arrival(query, 0, beam.accept, ef);
        assert(beam.knows(arrival, arrival.nearest[0]));
        beam.lemma_scrub(arrival);
    }

    /// A search stops because nothing waits, or because it has `ef` results that are
    /// all closer than anything that waits.
    pub proof fn law_search_stops_in_time(self, query: T, ef: nat, pass: spec_fn(usize) -> bool)
        requires
            self.searchable(),
            self.len() > 0,
            ef > 0,
        ensures
            ({
                let run = self.zero_run(query, ef, pass);
                ||| run.candidates.len() == 0
                ||| run.nearest.len() == ef && forall|i: int, j: int|
                    0 <= i < run.nearest.len() && 0 <= j < run.candidates.len() ==> (
                    #[trigger] run.nearest[i]).distance.key() < (
                    #[trigger] run.candidates[j]).distance.key()
            }),
    {
        let beam = self.zero_beam(query, ef, pass);
        let run = self.zero_run(query, ef, pass);
        self.lemma_zero_run(query, ef, pass);
        beam.lemma_best_first_stops(beam.scrub(self.arrival(query, 0)));
        if run.candidates.len() > 0 {
            lemma_closest(run.candidates);
            let last = run.nearest.len() - 1;
            assert forall|i: int, j: int|
                0 <= i < run.nearest.len() && 0 <= j < run.candidates.len() implies (
            #[trigger] run.nearest[i]).distance.key() < (
            #[trigger] run.candidates[j]).distance.key() by {
                if i < last {
                    assert(run.nearest[i].distance.key() <= run.nearest[last].distance.key());
                }
            }
        }
    }

    /// What a filter says of ids that are no nodes, and of soft-deleted nodes, does
    /// not matter. A filter that accepts every live node finds what no filter finds.
    pub proof fn law_only_live_answers_matter(
        self,
        query: T,
        ef: nat,
        pass: spec_fn(usize) -> bool,
        other: spec_fn(usize) -> bool,
    )
        requires
            self.searchable(),
            forall|id: usize|
                id < self.len() && !self.dead.contains(id) ==> #[trigger] pass(id) == other(id),
        ensures
            self.nearest(query, ef, pass) == self.nearest(query, ef, other),
    {
        if ef > 0 && self.features.len() > 0 {
            let beam = self.zero_beam(query, ef, pass);
            let twin = self.zero_beam(query, ef, other);
            let arrival = self.arrival(query, 0);
            self.lemma_layer(0);
            self.lemma_arrival(query, 0, beam.accept, ef);
            self.lemma_arrival(query, 0, twin.accept, ef);
            beam.lemma_scrub(arrival);
            twin.lemma_scrub(arrival);
            assert(beam.knows(arrival, arrival.nearest[0]));
            beam.lemma_best_first_same(twin, beam.scrub(arrival));
        }
    }

    /// Soft deletion and filters are one and the same to a search of the zero layer:
    /// each leaves out what the other does not.
    pub proof fn law_deletion_is_a_filter(self, query: T, ef: nat, pass: spec_fn(usize) -> bool)
        ensures
            self.nearest(query, ef, pass) == (IndexView {
                dead: Set::empty(),
                ..self
            }).nearest(query, ef, passing(self.dead, pass)),
    {
        let other = IndexView { dead: Set::empty(), ..self };
        self.lemma_descent_ignores_deletion(query, self.start(query), self.top(), 0, Set::empty());
        assert(other.start(query) == self.start(query));
        assert(passing(Set::empty(), passing(self.dead, pass)) =~= passing(self.dead, pass));
    }

    /// The way down to a level does not depend on what was soft-deleted, and neither
    /// does what is found above the zero layer.
    pub proof fn law_descent_ignores_deletion(
        self,
        query: T,
        ef: nat,
        level: nat,
        dead: Set<usize>,
    )
        ensures
            (IndexView { dead, ..self }).arrival(query, level) == self.arrival(query, level),
            level > 0 ==> (IndexView { dead, ..self }).nearest_at(query, ef, level)
                == self.nearest_at(query, ef, level),
    {
        let other = IndexView { dead, ..self };
        self.lemma_descent_ignores_deletion(query, self.start(query), self.top(), level, dead);
        assert(other.start(query) == self.start(query));
    }

    proof fn lemma_descent_ignores_deletion(
        self,
        query: T,
        run: Run<Met::Unit>,
        from: nat,
        to: nat,
        dead: Set<usize>,
    )
        ensures
            (IndexView { dead, ..self }).descended(query, run, from, to) == self.descended(
                query,
                run,
                from,
                to,
            ),
        decreases from,
    {
        if from > to {
            let other = IndexView { dead, ..self };
            assert(other.passage(query, from) == self.passage(query, from));
            let found = self.passage(query, from).depth_first(run);
            self.lemma_descent_ignores_deletion(
                query,
                lowered(self.graph.layers[from - 1], found),
                (from - 1) as nat,
                to,
                dead,
            );
        }
    }

    /// A search that stops at the zero layer is a search.
    pub proof fn law_level_zero_is_nearest(self, query: T, ef: nat)
        ensures
            self.nearest_at(query, ef, 0) == self.nearest(query, ef, anything()),
    {
    }

    /// A search that stops above the zero layer finds exactly one node, an item of that
    /// layer whose id is that of the node it was measured at.
    pub proof fn law_upper_result_maps_to_its_node(self, query: T, ef: nat, level: nat)
        requires
            self.searchable(),
            self.len() > 0,
            ef > 0,
            0 < level <= self.top(),
        ensures
            ({
                let results = self.nearest_at(query, ef, level);
                let id = self.graph.layer(level).ids[results[0].index as int];
                &&& results.len() == 1
                &&& self.has_item(level, results[0].index as int)
                &&& id < self.len()
                &&& results[0].distance == self.metric.spec_distance(
                    query,
                    self.features[id as int],
                )
            }),
    {
        let beam = self.passage(query, level);
        let run = self.arrival(query, level);
        self.lemma_arrival(query, level, beam.accept, 1);
        self.lemma_layer(level);
        beam.lemma_depth_first_keeps(run);
        let found = beam.depth_first(run);
        assert(beam.knows(found, found.nearest[0]));
    }
}

// ---------------------------------------------------------------------------
// Insertions
// ---------------------------------------------------------------------------

/// Whether no node of a graph links to itself, or twice to another, in any layer.
pub open spec fn simple_graph(graph: GraphView) -> bool {
    &&& simple(graph.zero)
    &&& forall|ix: int|
        0 <= ix < graph.layers.len() ==> simple(upper_layer(#[trigger] graph.layers[ix]).links)
}

/// A change to an index.
pub enum Step<T> {
    /// A feature is inserted, and a level was drawn for it.
    Insert {
        /// The feature.
        feature: T,
        /// The level.
        drawn: usize,
    },
    /// A node is soft-deleted.
    Delete {
        /// The id of the node.
        id: usize,
    },
}

/// An index after a change.
pub open spec fn changed<Met: Metric<T>, T>(
    index: IndexView<Met, T>,
    step: Step<T>,
) -> IndexView<Met, T> {
    match step {
        Step::Insert { feature, drawn } => index.inserted(feature, capped_level(drawn) as nat),
        Step::Delete { id } => index.deleted(id),
    }
}

/// An index after changes one after the other.
pub open spec fn grown<Met: Metric<T>, T>(
    index: IndexView<Met, T>,
    steps: Seq<Step<T>>,
) -> IndexView<Met, T>
    decreases steps.len(),
{
    if steps.len() == 0 {
        index
    } else {
        changed(grown(index, steps.drop_last()), steps.last())
    }
}

/// The features that changes insert, in order.
pub open spec fn inserted_features<T>(steps: Seq<Step<T>>) -> Seq<T>
    decreases steps.len(),
{
    if steps.len() == 0 {
        Seq::empty()
    } else {
        let front = inserted_features(steps.drop_last());
        match steps.last() {
            Step::Insert { feature, .. } => front.push(feature),
            Step::Delete { .. } => front,
        }
    }
}

/// The ids that changes soft-delete.
pub open spec fn deleted_ids<T>(steps: Seq<Step<T>>) -> Set<usize>
    decreases steps.len(),
{
    if steps.len() == 0 {
        Set::empty()
    } else {
        let front = deleted_ids(steps.drop_last());
        match steps.last() {
            Step::Insert { .. } => front,
            Step::Delete { id } => front.insert(id),
        }
    }
}

impl<T, Met: Metric<T>> IndexView<Met, T> {
    /// An insertion adds one node and one feature behind those there are, and leaves
    /// the metric, the degrees, the parameters and the soft-deleted nodes alone.
    pub proof fn law_insertion_appends(self, newcomer: T, level: nat)
        requires
            self.wf(),
            self.len() < usize::MAX,
            level < usize::MAX,
        ensures
            ({
                let after = self.inserted(newcomer, level);
                &&& after.wf()
                &&& after.len() == self.len() + 1
                &&& after.features == self.features.push(newcomer)
                &&& after.metric == self.metric
                &&& after.m == self.m
                &&& after.m0 == self.m0
                &&& after.params == self.params
                &&& after.dead == self.dead
            }),
    {
        self.lemma_inserted(newcomer, level);
    }

    /// The layers reach as high as the highest level at which a node was inserted, and
    /// never above the ceiling.
    pub proof fn law_layers_stay_bounded(self, newcomer: T, drawn: usize)
        requires
            self.wf(),
            self.len() < usize::MAX,
        ensures
            ({
                let level = capped_level(drawn) as nat;
                let after = self.inserted(newcomer, level);
                &&& after.top() == if level <= self.top() {
                    self.top()
                } else {
                    level
                }
                &&& self.top() <= MAX_LEVEL ==> after.top() <= MAX_LEVEL
            }),
    {
        self.lemma_inserted(newcomer, capped_level(drawn) as nat);
    }

    /// What an insertion links a newcomer to at a level: nodes of the layer, each once,
    /// and one at least if the layer allows for any.
    proof fn lemma_targets(self, newcomer: T, height: nat, level: nat, capacity: nat)
        requires
            self.wf(),
            self.len() > 0,
            level <= height <= self.top(),
        ensures
            ({
                let targets = chosen(self.insertion_found(newcomer, height, level), capacity);
                &&& targets.no_duplicates()
                &&& targets.len() <= capacity
                &&& capacity > 0 ==> targets.len() > 0
                &&& forall|i: int|
                    0 <= i < targets.len() ==> (#[trigger] targets[i]) < self.graph.layer(
                        level,
                    ).ids.len()
            }),
    {
        let found = self.insertion_found(newcomer, height, level);
        let targets = chosen(found, capacity);
        self.lemma_insertion_found(newcomer, height, level);
        assert forall|i: int, j: int| 0 <= i < targets.len() && 0 <= j < targets.len() && i
            != j implies targets[i] != targets[j] by {
            assert(found[i].index != found[j].index || i == j);
        }
        assert forall|i: int| 0 <= i < targets.len() implies (#[trigger] targets[i])
            < self.graph.layer(level).ids.len() by {
            assert(found[i].index == targets[i]);
        }
    }

    /// A newcomer to an index that has nodes is linked into the zero layer: to at least
    /// one node if the degree allows for any, and each of those links back or has no
    /// room. No node loses a link without getting another.
    pub proof fn law_newcomer_is_linked(self, newcomer: T, level: nat)
        requires
            self.wf(),
            0 < self.len() < usize::MAX,
            level < usize::MAX,
        ensures
            ({
                let zero = self.inserted(newcomer, level).graph.zero;
                let fresh = self.len() as usize;
                &&& self.m0 > 0 ==> zero[fresh as int].len() > 0
                &&& forall|node: int|
                    0 <= node < self.len() && zero[fresh as int].contains(node as usize) ==> (
                    #[trigger] zero[node]).contains(fresh) || zero[node].len() == self.m0
                &&& forall|node: int|
                    0 <= node < self.len() ==> self.graph.zero[node].len() <= (
                    #[trigger] zero[node]).len()
            }),
    {
        let height = self.height(level);
        self.lemma_targets(newcomer, height, 0, self.m0 as nat);
        lemma_joined_links(
            self.between(newcomer, 0),
            self.m0 as nat,
            self.graph.zero,
            chosen(self.insertion_found(newcomer, height, 0), self.m0 as nat),
        );
    }

    /// In the zero layer a newcomer links to no soft-deleted node, but for the one where
    /// its search enters the layer.
    pub proof fn law_newcomer_links_to_live_nodes(self, newcomer: T, level: nat)
        requires
            self.wf(),
            0 < self.len() < usize::MAX,
            level < usize::MAX,
        ensures
            ({
                let links = self.inserted(newcomer, level).graph.zero[self.len() as int];
                let entry = self.insertion_arrival(newcomer, self.height(level), 0).nearest[0];
                forall|i: int|
                    0 <= i < links.len() ==> !self.dead.contains(#[trigger] links[i]) || links[i]
                        == entry.index
            }),
    {
        let height = self.height(level);
        let beam = self.insertion_beam(newcomer, 0);
        let run = self.insertion_arrival(newcomer, height, 0);
        let entry = run.nearest[0].index;
        self.lemma_insertion_arrival(newcomer, height, 0);
        self.lemma_layer(0);
        self.lemma_joined_zero(newcomer, height);
        assert(beam.knows(run, run.nearest[0]));
        assert(beam.screened_but(run, entry));
        beam.lemma_depth_first_screened(run, entry);
        beam.lemma_depth_first_keeps(run);
        let found = beam.depth_first(run);
        let links = self.inserted(newcomer, level).graph.zero[self.len() as int];
        assert(links == chosen(found.nearest, self.m0 as nat));
        assert forall|i: int| 0 <= i < links.len() implies !self.dead.contains(
            #[trigger] links[i],
        ) || links[i] == entry by {
            assert(beam.knows(found, found.nearest[i]));
            assert(links[i] == found.nearest[i].index);
            assert(beam.layer.ids[found.nearest[i].index as int] == links[i]);
        }
    }

    /// The layers that a newcomer joins above the zero layer link it in the same way.
    pub proof fn law_newcomer_is_linked_above(self, newcomer: T, level: nat, ix: int)
        requires
            self.wf(),
            0 < self.len() < usize::MAX,
            level < usize::MAX,
            0 <= ix < self.top(),
            ix < level,
        ensures
            ({
                let before = self.graph.layers[ix];
                let after = self.inserted(newcomer, level).graph.layers[ix];
                let fresh = before.len() as usize;
                &&& after.len() == before.len() + 1
                &&& after[fresh as int].zero_node == self.len()
                &&& self.m > 0 ==> after[fresh as int].links.len() > 0
                &&& forall|node: int|
                    0 <= node < before.len() && after[fresh as int].links.contains(
                        node as usize,
                    ) ==> (#[trigger] after[node]).links.contains(fresh)
                        || after[node].links.len() == self.m
                &&& forall|node: int|
                    0 <= node < before.len() ==> before[node].links.len() <= (
                    #[trigger] after[node]).links.len()
            }),
    {
        let height = self.height(level);
        let before = self.graph.layers[ix];
        let after = self.inserted(newcomer, level).graph.layers[ix];
        let targets = chosen(
            self.insertion_found(newcomer, height, (ix + 1) as nat),
            self.m as nat,
        );
        let links = upper_layer(before).links;
        let near = self.between(newcomer, (ix + 1) as nat);
        assert(self.graph.layer_formed(ix, self.m as nat));
        self.lemma_targets(newcomer, height, (ix + 1) as nat, self.m as nat);
        self.lemma_inserted_layer(newcomer, level, ix);
        lemma_joined_links(near, self.m as nat, links, targets);
        let joined = offered(near, self.m as nat, links, targets).push(targets);
        assert forall|node: int| 0 <= node < before.len() implies (
        #[trigger] after[node]).links == joined[node] && before[node].links == links[node] by {}
    }

    /// What an insertion leaves of a layer that was there.
    proof fn lemma_inserted_layer(self, newcomer: T, level: nat, ix: int)
        requires
            self.wf(),
            0 < self.len() < usize::MAX,
            level < usize::MAX,
            0 <= ix < self.top(),
        ensures
            self.inserted(newcomer, level).top() >= self.top(),
            self.inserted(newcomer, level).graph.layers[ix] == if ix < level {
                self.joined_upper(newcomer, self.height(level), ix)
            } else {
                self.graph.layers[ix]
            },
    {
        let height = self.height(level);
        let layers = Seq::new(
            self.top(),
            |ix: int|
                if ix < height {
                    self.joined_upper(newcomer, height, ix)
                } else {
                    self.graph.layers[ix]
                },
        );
        lemma_raised_prefix(layers, self.len() as usize, level);
        assert(layers[ix] == raised(layers, self.len() as usize, level)[ix]);
    }

    /// An insertion leads to no link of a node to itself, nor to two links between the
    /// same nodes.
    pub proof fn law_links_stay_simple(self, newcomer: T, level: nat)
        requires
            self.wf(),
            self.len() < usize::MAX,
            level < usize::MAX,
            simple_graph(self.graph),
        ensures
            simple_graph(self.inserted(newcomer, level).graph),
    {
        let after = self.inserted(newcomer, level).graph;
        let height = self.height(level);
        if self.len() == 0 {
            assert(self.graph.layers =~= Seq::empty());
            lemma_raised_simple(Seq::empty(), 0, level);
        } else {
            self.lemma_targets(newcomer, height, 0, self.m0 as nat);
            lemma_joined_links(
                self.between(newcomer, 0),
                self.m0 as nat,
                self.graph.zero,
                chosen(self.insertion_found(newcomer, height, 0), self.m0 as nat),
            );
            let layers = Seq::new(
                self.top(),
                |ix: int|
                    if ix < height {
                        self.joined_upper(newcomer, height, ix)
                    } else {
                        self.graph.layers[ix]
                    },
            );
            assert forall|ix: int| 0 <= ix < layers.len() implies simple(
                upper_layer(#[trigger] layers[ix]).links,
            ) by {
                let before = self.graph.layers[ix];
                let links = upper_layer(before).links;
                assert(simple(links));
                if ix < height {
                    let targets = chosen(
                        self.insertion_found(newcomer, height, (ix + 1) as nat),
                        self.m as nat,
                    );
                    let near = self.between(newcomer, (ix + 1) as nat);
                    assert(self.graph.layer_formed(ix, self.m as nat));
                    self.lemma_targets(newcomer, height, (ix + 1) as nat, self.m as nat);
                    lemma_joined_links(near, self.m as nat, links, targets);
                    assert(upper_layer(layers[ix]).links =~= offered(
                        near,
                        self.m as nat,
                        links,
                        targets,
                    ).push(targets));
                }
            }
            lemma_raised_simple(layers, self.len() as usize, level);
        }
    }
}

impl<T, Met: Metric<T>> IndexView<Met, T> {
    /// An insertion leaves the nodes of every layer in the order of their ids.
    pub proof fn law_layers_stay_ordered(self, newcomer: T, level: nat)
        requires
            self.wf(),
            self.len() < usize::MAX,
            level < usize::MAX,
            self.graph.ordered(),
        ensures
            self.inserted(newcomer, level).graph.ordered(),
    {
        let after = self.inserted(newcomer, level).graph;
        let height = self.height(level);
        let fresh = self.len() as usize;
        let layers = if self.len() == 0 {
            Seq::empty()
        } else {
            Seq::new(
                self.top(),
                |ix: int|
                    if ix < height {
                        self.joined_upper(newcomer, height, ix)
                    } else {
                        self.graph.layers[ix]
                    },
            )
        };
        assert(after.layers == raised(layers, fresh, level));
        lemma_raised_prefix(layers, fresh, level);
        assert forall|ix: int| 0 <= ix < after.layers.len() implies #[trigger] after.layer_ordered(
            ix,
        ) by {
            if ix < layers.len() {
                let before = self.graph.layers[ix];
                let nodes = after.layers[ix];
                assert(nodes == layers[ix]);
                assert(self.graph.layer_formed(ix, self.m as nat));
                assert(self.graph.layer_ordered(ix));
                if ix < height {
                    self.lemma_joined_upper(newcomer, height, ix);
                    assert forall|i: int, j: int| 0 <= i < j < nodes.len() implies (
                    #[trigger] nodes[i]).zero_node < (#[trigger] nodes[j]).zero_node by {
                        assert(nodes[i].zero_node == before[i].zero_node);
                        if j < before.len() {
                            assert(nodes[j].zero_node == before[j].zero_node);
                        } else {
                            assert(nodes[j] == nodes.last());
                        }
                    }
                }
            }
        }
    }
}

proof fn lemma_raised_prefix(layers: Seq<Seq<NodeView>>, id: usize, level: nat)
    ensures
        raised(layers, id, level).len() >= layers.len(),
        layers.is_prefix_of(raised(layers, id, level)),
        forall|ix: int|
            layers.len() <= ix < raised(layers, id, level).len() ==> (#[trigger] raised(
                layers,
                id,
                level,
            )[ix]).len() == 1,
    decreases level - layers.len(),
{
    if layers.len() < level {
        let node = NodeView {
            zero_node: id,
            next_node: if layers.len() == 0 {
                id
            } else {
                (layers.last().len() - 1) as usize
            },
            links: Seq::empty(),
        };
        lemma_raised_prefix(layers.push(seq![node]), id, level);
        assert(layers.is_prefix_of(layers.push(seq![node])));
    }
}

proof fn lemma_raised_simple(layers: Seq<Seq<NodeView>>, id: usize, level: nat)
    requires
        forall|ix: int|
            0 <= ix < layers.len() ==> simple(upper_layer(#[trigger] layers[ix]).links),
    ensures
        forall|ix: int|
            0 <= ix < raised(layers, id, level).len() ==> simple(
                upper_layer(#[trigger] raised(layers, id, level)[ix]).links,
            ),
    decreases level - layers.len(),
{
    if layers.len() < level {
        let node = NodeView {
            zero_node: id,
            next_node: if layers.len() == 0 {
                id
            } else {
                (layers.last().len() - 1) as usize
            },
            links: Seq::empty(),
        };
        let more = layers.push(seq![node]);
        assert forall|ix: int| 0 <= ix < more.len() implies simple(
            upper_layer(#[trigger] more[ix]).links,
        ) by {
            if ix < layers.len() {
                assert(more[ix] == layers[ix]);
            } else {
                assert(more[ix] == seq![node]);
            }
        }
        lemma_raised_simple(more, id, level);
        assert(raised(layers, id, level) == raised(more, id, level));
    }
}

/// Insertions into an empty index give the nodes the ids 0, 1, 2 and so on, and the
/// feature of each is the one that was inserted, whatever is soft-deleted in between.
/// The index is as it should be, its links are simple, and its layers are ordered and
/// reach no higher than the ceiling. Soft-deleted is what was marked, and the metric,
/// the degrees and the parameters are those it started with.
pub proof fn law_ids_follow_insertions<Met: Metric<T>, T>(
    index: IndexView<Met, T>,
    steps: Seq<Step<T>>,
)
    requires
        index == empty_index(index.metric, index.m, index.m0, Seq::<T>::empty(), index.params),
        inserted_features(steps).len() <= usize::MAX,
    ensures
        ({
            let after = grown(index, steps);
            &&& after.wf()
            &&& after.searchable()
            &&& simple_graph(after.graph)
            &&& after.graph.ordered()
            &&& after.top() <= MAX_LEVEL
            &&& after.len() == inserted_features(steps).len()
            &&& after.features == inserted_features(steps)
            &&& after.dead == deleted_ids(steps)
            &&& after.metric == index.metric
            &&& after.m == index.m
            &&& after.m0 == index.m0
            &&& after.params == index.params
        }),
    decreases steps.len(),
{
    if steps.len() > 0 {
        let front = steps.drop_last();
        law_ids_follow_insertions(index, front);
        let before = grown(index, front);
        if let Step::Insert { feature, drawn } = steps.last() {
            let level = capped_level(drawn) as nat;
            before.law_insertion_appends(feature, level);
            before.law_layers_stay_bounded(feature, drawn);
            before.law_links_stay_simple(feature, level);
            before.law_layers_stay_ordered(feature, level);
        }
    }
}

// ---------------------------------------------------------------------------
// Soft deletion
// ---------------------------------------------------------------------------

impl<T, Met> IndexView<Met, T> {
    /// Soft deletion marks one id and changes nothing else. Marking it again changes
    /// nothing, and the order of marks does not matter.
    pub proof fn law_deletion_marks_one_id(self, id: usize, other: usize)
        ensures
            self.deleted(id).dead.contains(id),
            other != id ==> self.deleted(id).dead.contains(other) == self.dead.contains(other),
            self.deleted(id).graph == self.graph,
            self.deleted(id).features == self.features,
            self.deleted(id).wf() == self.wf(),
            self.deleted(id).deleted(id) == self.deleted(id),
            self.deleted(id).deleted(other) == self.deleted(other).deleted(id),
    {
        assert(self.deleted(id).deleted(id).dead =~= self.deleted(id).dead);
        assert(self.deleted(id).deleted(other).dead =~= self.deleted(other).deleted(id).dead);
    }

    /// Soft deletion of a live node leaves one live node fewer. That of a node that was
    /// deleted before, or that does not exist, leaves as many.
    pub proof fn law_deletion_counts(self, id: usize)
        requires
            self.wf(),
        ensures
            live_below(self.dead, self.len()) <= self.len(),
            live_below(self.deleted(id).dead, self.len()) == if id < self.len()
                && !self.dead.contains(id) {
                live_below(self.dead, self.len()) - 1
            } else {
                live_below(self.dead, self.len()) as int
            },
    {
        lemma_live_below(self.dead, self.len());
        lemma_live_below_insert(self.dead, id, self.len());
    }

    /// The entry point is a live node, and there is none if and only if no node is live.
    pub proof fn law_entry_is_live(self)
        requires
            self.wf(),
        ensures
            self.entry() matches Some(id) ==> id < self.len() && !self.dead.contains(id),
            self.entry() is None <==> live_below(self.dead, self.len()) == 0,
    {
        self.lemma_entry_below(self.top());
        lemma_live_below_zero(self.dead, self.len());
        if self.entry() is None {
            let ids = self.graph.layer(0).ids;
            lemma_first_live(ids, self.dead);
            assert forall|id: usize| id < self.len() implies self.dead.contains(id) by {
                assert(ids[id as int] == id);
            }
        } else {
            let id = self.entry()->Some_0;
            assert(id < self.len() && !self.dead.contains(id));
        }
    }

    proof fn lemma_entry_below(self, level: nat)
        requires
            self.wf(),
            level <= self.top(),
        ensures
            self.entry_below(level) matches Some(id) ==> id < self.len() && !self.dead.contains(
                id,
            ),
            self.entry_below(level) is None ==> first_live(self.graph.layer(0).ids, self.dead)
                is None,
        decreases level,
    {
        let ids = self.graph.layer(level).ids;
        self.lemma_layer(level);
        lemma_first_live(ids, self.dead);
        if first_live(ids, self.dead) is None && level > 0 {
            self.lemma_entry_below((level - 1) as nat);
        }
    }
}

proof fn lemma_first_live(ids: Seq<usize>, dead: Set<usize>)
    ensures
        first_live(ids, dead) matches Some(id) ==> !dead.contains(id) && ids.contains(id),
        first_live(ids, dead) is None ==> forall|i: int|
            0 <= i < ids.len() ==> dead.contains(#[trigger] ids[i]),
    decreases ids.len(),
{
    if ids.len() > 0 {
        let rest = ids.drop_first();
        lemma_first_live(rest, dead);
        if dead.contains(ids[0]) {
            if let Some(id) = first_live(rest, dead) {
                let k = rest.index_of(id);
                assert(ids[k + 1] == id);
            } else {
                assert forall|i: int| 0 <= i < ids.len() implies dead.contains(
                    #[trigger] ids[i],
                ) by {
                    if i > 0 {
                        assert(rest[i - 1] == ids[i]);
                    }
                }
            }
        } else {
            assert(ids.contains(ids[0]));
        }
    }
}

proof fn lemma_live_below_insert(dead: Set<usize>, id: usize, limit: nat)
    requires
        limit <= usize::MAX + 1,
    ensures
        live_below(dead.insert(id), limit) == live_below(dead, limit) - if id < limit
            && !dead.contains(id) {
            1int
        } else {
            0int
        },
    decreases limit,
{
    if limit > 0 {
        lemma_live_below_insert(dead, id, (limit - 1) as nat);
    }
}

proof fn lemma_live_below_zero(dead: Set<usize>, limit: nat)
    requires
        limit <= usize::MAX + 1,
    ensures
        live_below(dead, limit) == 0 <==> forall|id: usize| id < limit ==> #[trigger] dead.contains(
            id,
        ),
    decreases limit,
{
    if limit > 0 {
        lemma_live_below_zero(dead, (limit - 1) as nat);
        let last = (limit - 1) as usize;
        if live_below(dead, limit) == 0 {
            assert forall|id: usize| id < limit implies #[trigger] dead.contains(id) by {
                if id < limit - 1 {
                }
            }
        }
        if forall|id: usize| id < limit ==> #[trigger] dead.contains(id) {
            assert(dead.contains(last));
        }
    }
}

// ---------------------------------------------------------------------------
// The two types of index
// ---------------------------------------------------------------------------

/// An index with fixed degrees and one with degrees chosen at run time that start
/// without nodes, with the same metric, degrees and parameters, hold the same after the
/// same insertions and soft deletions, however many there are. So a search finds the
/// same in both.
pub proof fn law_both_types_agree<
    Met: Metric<T>,
    T,
    R: LevelSource,
    Q: LevelSource,
    const M: usize,
    const M0: usize,
    S: FeatureStore<T>,
    V: FeatureStore<T>,
>(
    fixed: Seq<Hnsw<Met, T, R, M, M0, S>>,
    runtime: Seq<HnswRuntime<Met, T, Q, V>>,
    steps: Seq<Step<T>>,
    query: T,
    ef: nat,
    level: nat,
    pass: spec_fn(usize) -> bool,
)
    requires
        fixed.len() == steps.len() + 1,
        runtime.len() == steps.len() + 1,
        fixed[0]@ == empty_index(fixed[0]@.metric, M, M0, Seq::<T>::empty(), fixed[0]@.params),
        runtime[0]@ == empty_index(
            fixed[0]@.metric,
            M,
            M0,
            Seq::<T>::empty(),
            runtime[0]@.params,
        ),
        fixed[0]@.params.spec_ef_construction() == runtime[0]@.params.spec_ef_construction(),
        fixed[0]@.params.spec_level_scale() == runtime[0]@.params.spec_level_scale(),
        forall|i: int|
            0 <= i < steps.len() ==> fixed[i + 1]@ == changed(fixed[i]@, #[trigger] steps[i]),
        forall|i: int|
            0 <= i < steps.len() ==> runtime[i + 1]@ == changed(runtime[i]@, #[trigger] steps[i]),
    ensures
        forall|i: int| 0 <= i <= steps.len() ==> (#[trigger] fixed[i])@ == runtime[i]@,
        fixed.last()@ == grown(fixed[0]@, steps),
        fixed.last()@.nearest(query, ef, pass) == runtime.last()@.nearest(query, ef, pass),
        fixed.last()@.nearest_at(query, ef, level) == runtime.last()@.nearest_at(
            query,
            ef,
            level,
        ),
        fixed.last()@.entry() == runtime.last()@.entry(),
    decreases steps.len(),
{
    law_params_are_their_values(fixed[0]@.params, runtime[0]@.params);
    if steps.len() > 0 {
        let front = steps.drop_last();
        let fixed_front = fixed.drop_last();
        let runtime_front = runtime.drop_last();
        assert forall|i: int| 0 <= i < front.len() implies fixed_front[i + 1]@ == changed(
            fixed_front[i]@,
            #[trigger] front[i],
        ) && runtime_front[i + 1]@ == changed(runtime_front[i]@, front[i]) by {
            assert(front[i] == steps[i]);
        }
        law_both_types_agree(fixed_front, runtime_front, front, query, ef, level, pass);
        let last = steps.len() - 1;
        assert(steps[last] == steps.last());
        assert(fixed_front[last]@ == runtime_front[last]@);
        assert(fixed_front.last() == fixed[last]);
        assert forall|i: int| 0 <= i <= steps.len() implies (#[trigger] fixed[i])@
            == runtime[i]@ by {
            if i <= last {
                assert(fixed_front[i] == fixed[i]);
            }
        }
    }
}

/// The parts of an index make up an index again, which holds the same but for what was
/// soft-deleted. If the index is as it should be, they fit together.
pub proof fn law_parts_round_trip<
    Met: Metric<T>,
    T,
    R: LevelSource,
    const M: usize,
    const M0: usize,
    S: FeatureStore<T>,
>(hnsw: Hnsw<Met, T, R, M, M0, S>)
    requires
        hnsw@.m == M,
        hnsw@.m0 == M0,
    ensures
        hnsw.wf() ==> fit_together(
            M as nat,
            M0 as nat,
            hnsw.spec_zero(),
            hnsw.spec_layers(),
            hnsw.spec_storage().features().len(),
        ),
        (IndexView {
            graph: graph_of(hnsw.spec_zero(), hnsw.spec_layers()),
            ..empty_index(
                hnsw@.metric,
                M,
                M0,
                hnsw.spec_storage().features(),
                hnsw@.params,
            )
        }) == (IndexView { dead: Set::empty(), ..hnsw@ }),
{
    hnsw.lemma_parts();
}

/// The neighbor lists of an index with fewer than 2^32 nodes are read back as they
/// were written.
pub proof fn law_lists_round_trip<
    Met: Metric<T>,
    T,
    R: LevelSource,
    const M: usize,
    const M0: usize,
    S: FeatureStore<T>,
>(hnsw: Hnsw<Met, T, R, M, M0, S>)
    requires
        hnsw.wf(),
        hnsw@.len() <= LEGACY_32_BIT_EMPTY,
    ensures
        forall|node: int, slot: int|
            0 <= node < hnsw.spec_zero().len() && 0 <= slot < M0 ==> {
                let value = #[trigger] hnsw.spec_zero()[node].neighbors@[slot];
                slot_of(wire_of(value)) == Some(value)
            },
        forall|ix: int, node: int, slot: int|
            0 <= ix < hnsw.spec_layers().len() && 0 <= node < hnsw.spec_layers()[ix]@.len() && 0
                <= slot < M ==> {
                let value = #[trigger] hnsw.spec_layers()[ix]@[node].neighbors.neighbors@[slot];
                slot_of(wire_of(value)) == Some(value)
            },
{
    hnsw.lemma_parts();
    let zero = hnsw.spec_zero();
    let layers = hnsw.spec_layers();
    let graph = graph_of(zero, layers);
    assert forall|node: int, slot: int| 0 <= node < zero.len() && 0 <= slot < M0 implies {
        let value = #[trigger] zero[node].neighbors@[slot];
        slot_of(wire_of(value)) == Some(value)
    } by {
        let slots = zero[node].slots();
        let value = slots[slot];
        assert(tidy(zero[node], M0 as nat));
        lemma_live_len(slots);
        if slot < live_len(slots) {
            assert(live(slots)[slot] == value);
            assert(graph.zero[node][slot] == value);
        }
        law_slot_round_trip(value);
    }
    assert forall|ix: int, node: int, slot: int|
        0 <= ix < layers.len() && 0 <= node < layers[ix]@.len() && 0 <= slot < M implies {
        let value = #[trigger] layers[ix]@[node].neighbors.neighbors@[slot];
        slot_of(wire_of(value)) == Some(value)
    } by {
        let slots = layers[ix]@[node].neighbors.slots();
        let value = slots[slot];
        assert(layers[ix].is_tidy(M as nat));
        assert(graph.layer_formed(ix, M as nat));
        lemma_live_len(slots);
        if slot < live_len(slots) {
            assert(live(slots)[slot] == value);
            assert(upper_layer(graph.layers[ix]).links[node][slot] == value);
        }
        law_slot_round_trip(value);
    }
}

} // verus!
