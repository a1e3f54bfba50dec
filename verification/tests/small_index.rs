//! Small indexes whose every answer can be worked out by hand.

use hnsw::nodes::{live_neighbors, NeighborNodes, Node, EMPTY};
use hnsw::params::{cap_level, MAX_LEVEL, UNIT_SCALE};
use hnsw::{Hnsw, HnswRuntime, LevelSource, Metric, Neighbor, Params, Searcher};

/// Numbers on a line.
#[derive(Clone, Default)]
struct Line;

impl Metric<i64> for Line {
    type Unit = u64;
    fn distance(&self, a: &i64, b: &i64) -> u64 {
        a.abs_diff(*b)
    }
}

/// Always draws the same level.
#[derive(Clone, Default)]
struct Fixed(usize);

impl LevelSource for Fixed {
    fn draw_level(&mut self, _degree: usize, _level_scale: u64) -> usize {
        self.0
    }
}

type Index = Hnsw<Line, i64, Fixed, 4, 8>;

fn blank(k: usize) -> Vec<Neighbor<u64>> {
    vec![
        Neighbor {
            index: 77,
            distance: 77
        };
        k
    ]
}

fn pairs(found: &[Neighbor<u64>]) -> Vec<(usize, u64)> {
    found.iter().map(|n| (n.index, n.distance)).collect()
}

/// The numbers 0, 10, 20 and so on, each at the level given.
fn index(levels: &[usize]) -> Index {
    let mut searcher = Searcher::new();
    let mut hnsw = Index::new(Line);
    for (i, &level) in levels.iter().enumerate() {
        assert_eq!(
            hnsw.insert_at_level(10 * i as i64, level, &mut searcher),
            i
        );
    }
    hnsw
}

#[test]
fn an_empty_index_has_nothing() {
    let hnsw = Index::new(Line);
    assert!(hnsw.is_empty());
    assert_eq!(hnsw.len(), 0);
    assert_eq!(hnsw.layers(), 1);
    assert_eq!(hnsw.layer_len(0), 0);
    assert!(hnsw.layer_is_empty(0));
    assert!(hnsw.layer_is_empty(5));
    assert_eq!(hnsw.live_count(), 0);
    assert_eq!(hnsw.entry(), None);
    assert!(!hnsw.is_deleted(3));
    let mut searcher = Searcher::new();
    let mut dest = blank(2);
    assert!(hnsw.nearest(&5, 10, &mut searcher, &mut dest).is_empty());
    assert_eq!(pairs(&dest), [(77, 77), (77, 77)]);
    assert!(hnsw.knn(&5, 3).is_empty());
}

#[test]
fn results_come_closest_first_and_fill_what_there_is_room_for() {
    let hnsw = index(&[0, 1, 0, 2, 0, 0]);
    let mut searcher = Searcher::new();

    let mut dest = blank(4);
    let found = hnsw.nearest(&23, 10, &mut searcher, &mut dest);
    assert_eq!(pairs(found), [(2, 3), (3, 7), (1, 13), (4, 17)]);

    let mut dest = blank(9);
    let found = hnsw.nearest(&23, 10, &mut searcher, &mut dest);
    assert_eq!(
        pairs(found),
        [(2, 3), (3, 7), (1, 13), (4, 17), (0, 23), (5, 27)]
    );
    assert_eq!(pairs(&dest[6..]), [(77, 77); 3]);

    let mut dest = blank(9);
    let found = hnsw.nearest(&23, 2, &mut searcher, &mut dest);
    assert_eq!(pairs(found), [(2, 3), (3, 7)]);

    assert_eq!(pairs(&hnsw.knn(&-1, 2)), [(0, 1), (1, 11)]);
    assert_eq!(hnsw.knn(&-1, 100).len(), 6);
    assert!(hnsw.knn(&-1, 0).is_empty());
}

#[test]
fn levels_shape_the_layers() {
    let hnsw = index(&[0, 1, 0, 2, 1]);
    assert_eq!(hnsw.layers(), 3);
    assert_eq!(hnsw.layer_len(0), 5);
    assert_eq!(hnsw.layer_len(1), 3);
    assert_eq!(hnsw.layer_len(2), 1);
    assert_eq!(hnsw.layer_len(3), 0);
    assert!(hnsw.layer_is_empty(3));
    assert!(!hnsw.layer_is_empty(2));
    assert_eq!(
        [1, 3, 4],
        [
            hnsw.layer_item_id(1, 0),
            hnsw.layer_item_id(1, 1),
            hnsw.layer_item_id(1, 2)
        ]
    );
    assert_eq!(hnsw.layer_item_id(2, 0), 3);
    assert_eq!(hnsw.layer_item_id(0, 4), 4);
    assert_eq!(*hnsw.layer_feature(2, 0), 30);
    assert_eq!(*hnsw.layer_feature(0, 2), 20);
    assert_eq!(*hnsw.feature(4), 40);
    assert_eq!(hnsw.entry(), Some(3));

    let mut searcher = Searcher::new();
    let mut dest = blank(3);
    let found = hnsw.search_layer(&41, 5, 1, &mut searcher, &mut dest);
    assert_eq!(pairs(found), [(2, 1)]);
    let found = hnsw.search_layer(&41, 5, 2, &mut searcher, &mut dest);
    assert_eq!(pairs(found), [(0, 11)]);
    assert!(hnsw
        .search_layer(&41, 5, 3, &mut searcher, &mut dest)
        .is_empty());
    assert!(hnsw
        .search_layer(&41, 0, 1, &mut searcher, &mut dest)
        .is_empty());
    let found = hnsw.search_layer(&41, 5, 0, &mut searcher, &mut dest);
    assert_eq!(pairs(found), [(4, 1), (3, 11), (2, 21)]);
}

#[test]
fn a_drawn_level_is_capped() {
    assert_eq!(cap_level(0), 0);
    assert_eq!(cap_level(MAX_LEVEL), MAX_LEVEL);
    assert_eq!(cap_level(MAX_LEVEL + 1), MAX_LEVEL);
    assert_eq!(cap_level(usize::MAX), MAX_LEVEL);

    let mut searcher = Searcher::new();
    let mut hnsw = Index::new_prng(Line, Fixed(100_000));
    hnsw.insert(1, &mut searcher);
    hnsw.insert(2, &mut searcher);
    assert_eq!(hnsw.layers(), MAX_LEVEL + 1);
    assert_eq!(hnsw.layer_len(MAX_LEVEL), 2);
    assert_eq!(hnsw.knn(&2, 1)[0].index, 1);
}

#[test]
fn a_newcomer_above_the_top_leads_down_to_itself() {
    let hnsw = index(&[0, 0, 2]);
    let nodes: Vec<Vec<(usize, usize)>> = hnsw
        .upper_layers()
        .iter()
        .map(|l| l.iter().map(|n| (n.zero_node, n.next_node)).collect())
        .collect();
    assert_eq!(nodes, [[(2, 2)], [(2, 0)]]);
    assert_eq!(
        live_neighbors(&hnsw.zero_lists()[2].neighbors),
        [1, 0],
        "the closest comes first"
    );
    assert_eq!(live_neighbors(&hnsw.zero_lists()[0].neighbors), [1, 2]);
}

#[test]
fn a_soft_deleted_node_is_passed_through_but_not_reported() {
    let mut hnsw = index(&[0, 1, 0, 2, 0, 0]);
    let mut searcher = Searcher::new();
    hnsw.mark_delete(2);
    hnsw.mark_delete(3);
    hnsw.mark_delete(3);
    hnsw.mark_delete(100);
    assert_eq!(hnsw.live_count(), 4);
    assert!(hnsw.is_deleted(2) && hnsw.is_deleted(100) && !hnsw.is_deleted(1));
    assert_eq!(hnsw.entry(), Some(1), "the next one down");
    let mut dest = blank(9);
    let found = hnsw.nearest(&23, 9, &mut searcher, &mut dest);
    assert_eq!(pairs(found), [(1, 13), (4, 17), (0, 23), (5, 27)]);

    let mut dest = blank(1);
    let found = hnsw.search_layer(&23, 9, 2, &mut searcher, &mut dest);
    assert_eq!(pairs(found), [(0, 7)], "above the zero layer it is");

    for id in 0..6 {
        hnsw.mark_delete(id);
    }
    assert_eq!(hnsw.live_count(), 0);
    assert_eq!(hnsw.entry(), None);
    let mut dest = blank(9);
    assert!(hnsw.nearest(&23, 9, &mut searcher, &mut dest).is_empty());

    assert_eq!(hnsw.insert_at_level(60, 0, &mut searcher), 6);
    assert_eq!(hnsw.live_count(), 1);
    let found = hnsw.nearest(&23, 9, &mut searcher, &mut dest);
    assert_eq!(pairs(found), [(6, 37)]);
}

#[test]
fn a_mark_ahead_of_its_node_holds() {
    let mut hnsw = index(&[0]);
    hnsw.mark_delete(1);
    assert_eq!(hnsw.live_count(), 1);
    let mut searcher = Searcher::new();
    hnsw.insert_at_level(10, 0, &mut searcher);
    assert_eq!(hnsw.live_count(), 1);
    assert_eq!(hnsw.knn(&10, 5)[0].index, 0);
}

#[test]
fn a_filter_and_soft_deletion_leave_out_alike() {
    let hnsw = index(&[0, 1, 0, 2, 0, 0, 1, 0]);
    let mut marked = hnsw.clone();
    for id in [1, 3, 5] {
        marked.mark_delete(id);
    }
    let mut searcher = Searcher::new();
    for query in [-5, 14, 33, 52, 99] {
        let mut a = blank(4);
        let mut b = blank(4);
        let filtered = hnsw
            .nearest_filtered(&query, 3, &mut searcher, &mut a, &|id| {
                ![1, 3, 5].contains(&id)
            })
            .to_vec();
        let deleted = marked.nearest(&query, 3, &mut searcher, &mut b).to_vec();
        assert_eq!(filtered, deleted);
        assert_eq!(filtered.len(), 3);
    }
    let mut dest = blank(4);
    let found = hnsw.nearest_filtered(&33, 3, &mut searcher, &mut dest, &|id| id == 7);
    assert_eq!(pairs(found), [(7, 37)]);
    let mut dest = blank(4);
    assert!(hnsw
        .nearest_filtered(&33, 3, &mut searcher, &mut dest, &|_| false)
        .is_empty());
}

#[test]
fn what_a_searcher_was_used_for_does_not_matter() {
    let hnsw = index(&[0, 1, 0, 2, 0, 0]);
    let mut used = Searcher::new();
    let mut dest = blank(3);
    hnsw.nearest(&50, 6, &mut used, &mut dest);
    let mut copy = used.clone();
    let mut fresh = Searcher::default();
    let mut a = blank(3);
    let mut b = blank(3);
    let mut c = blank(3);
    hnsw.nearest(&1, 2, &mut used, &mut a);
    hnsw.nearest(&1, 2, &mut fresh, &mut b);
    hnsw.nearest(&1, 2, &mut copy, &mut c);
    assert_eq!(pairs(&a), pairs(&b));
    assert_eq!(pairs(&a), pairs(&c));
    assert_eq!(pairs(&a), [(0, 1), (1, 9), (77, 77)]);
}

#[test]
fn a_full_list_keeps_the_closest_and_one_link_per_direction() {
    // Node 0 at 0 has room for two links. It gets 10 and 11, which lie the same way,
    // and is then offered -50, which does not.
    let mut searcher = Searcher::new();
    let mut hnsw: Hnsw<Line, i64, Fixed, 2, 2> = Hnsw::new(Line);
    for x in [0, 10, 11] {
        hnsw.insert_at_level(x, 0, &mut searcher);
    }
    assert_eq!(live_neighbors(&hnsw.zero_lists()[0].neighbors), [1, 2]);
    hnsw.insert_at_level(-50, 0, &mut searcher);
    assert_eq!(
        live_neighbors(&hnsw.zero_lists()[0].neighbors),
        [1, 3],
        "11 is closer to 10 than to 0, and gives way"
    );
    assert_eq!(live_neighbors(&hnsw.zero_lists()[3].neighbors), [0, 1]);
    assert_eq!(
        live_neighbors(&hnsw.zero_lists()[1].neighbors),
        [2, 0],
        "-50 is closer to 0 than to 10, and the list is filled up with 0"
    );
}

#[test]
fn links_stay_simple_and_lists_stay_full() {
    let mut searcher = Searcher::new();
    let mut hnsw: Hnsw<Line, i64, Fixed, 3, 5> = Hnsw::new(Line);
    let mut degrees: Vec<usize> = Vec::new();
    for i in 0..300i64 {
        let level = [0, 0, 1, 0, 2, 0, 0, 3][i as usize % 8];
        hnsw.insert_at_level(i * i * 7919 % 1009, level, &mut searcher);
        for (id, list) in hnsw.zero_lists().iter().enumerate() {
            let links = live_neighbors(&list.neighbors);
            assert!(!links.contains(&id), "{id} links to itself");
            let mut sorted = links.to_vec();
            sorted.sort();
            sorted.dedup();
            assert_eq!(sorted.len(), links.len(), "{id} links twice to another");
            assert!(links.iter().all(|&n| n < hnsw.len()));
            match degrees.get(id) {
                Some(&before) => assert!(before <= links.len(), "{id} lost a link"),
                None => degrees.push(0),
            }
            degrees[id] = links.len();
        }
    }
    assert_eq!(hnsw.layers(), 4);
    assert!(degrees.iter().all(|&d| (1..=5).contains(&d)));
}

#[test]
fn both_types_hold_and_find_the_same() {
    let mut searcher = Searcher::new();
    let mut fixed: Hnsw<Line, i64, Fixed, 3, 6> = Hnsw::default();
    let mut runtime: HnswRuntime<Line, i64, Fixed> = HnswRuntime::new(Line, 3, 6);
    assert_eq!((runtime.m(), runtime.m0()), (3, 6));
    assert!(runtime.is_empty());
    for i in 0..120i64 {
        let level = (i as usize * 5) % 3;
        let x = i * i * 31 % 499;
        assert_eq!(
            fixed.insert_at_level(x, level, &mut searcher),
            runtime.insert_at_level(x, level, &mut searcher)
        );
    }
    for id in [0, 7, 60] {
        fixed.mark_delete(id);
        runtime.mark_delete(id);
    }
    assert_eq!(fixed.len(), runtime.len());
    assert_eq!(fixed.layers(), runtime.layers());
    assert_eq!(fixed.entry(), runtime.entry());
    assert_eq!(fixed.live_count(), runtime.live_count());
    assert!(runtime.is_deleted(7));
    for query in -10..510 {
        let mut a = blank(8);
        let mut b = blank(8);
        for level in 0..3 {
            let x = fixed
                .search_layer(&query, 12, level, &mut searcher, &mut a)
                .to_vec();
            let y = runtime
                .search_layer(&query, 12, level, &mut searcher, &mut b)
                .to_vec();
            assert_eq!(x, y);
        }
        let x = fixed
            .nearest_filtered(&query, 6, &mut searcher, &mut a, &|id| id % 3 == 1)
            .to_vec();
        let y = runtime
            .nearest_filtered(&query, 6, &mut searcher, &mut b, &|id| id % 3 == 1)
            .to_vec();
        assert_eq!(x, y);
    }
    assert_eq!(fixed.feature(9), runtime.feature(9));
}

#[test]
fn defaults_are_what_they_are_said_to_be() {
    let params = Params::new();
    assert_eq!(params.get_ef_construction(), 400);
    assert_eq!(params.get_level_scale(), 1.0f64.to_bits());
    assert_eq!(params.get_level_scale(), UNIT_SCALE);
    assert_eq!(params, Params::default());
    let runtime: HnswRuntime<Line, i64, Fixed> = HnswRuntime::default();
    assert_eq!((runtime.m(), runtime.m0()), (12, 24));
    let with_room = Index::new_with_capacity(Line, params.ef_construction(7), usize::MAX);
    assert_eq!(with_room.params().get_ef_construction(), 7);
    assert!(with_room.is_empty());
    let with_params = Index::new_params(Line, params.ef_construction(3));
    assert_eq!(with_params.params().to_wire(), 3);
    let runtime: HnswRuntime<Line, i64, Fixed> = HnswRuntime::new_params(Line, 2, 2, params);
    assert_eq!((runtime.m(), runtime.m0()), (2, 2));
}

#[test]
fn a_level_scale_is_finite_and_positive() {
    let scaled = |scale: f64| {
        f64::from_bits(
            Params::new()
                .ef_construction(9)
                .level_scale(scale.to_bits())
                .get_level_scale(),
        )
    };
    for scale in [0.35, 1.0, 5000.0, f64::MAX, f64::MIN_POSITIVE, 5e-324] {
        assert_eq!(scaled(scale), scale);
    }
    for scale in [
        0.0,
        -0.0,
        -1.0,
        f64::NEG_INFINITY,
        f64::INFINITY,
        f64::NAN,
        -f64::NAN,
    ] {
        assert_eq!(scaled(scale), 1.0);
    }
    let read = Params::from_wire(
        Params::new()
            .ef_construction(9)
            .level_scale(0.5f64.to_bits())
            .to_wire(),
    )
    .unwrap();
    assert_eq!(read.get_ef_construction(), 9);
    assert_eq!(read.get_level_scale(), UNIT_SCALE);
}

#[test]
fn a_list_is_live_up_to_its_first_empty_slot() {
    assert_eq!(live_neighbors(&[]), [] as [usize; 0]);
    assert_eq!(live_neighbors(&[EMPTY, 3]), [] as [usize; 0]);
    assert_eq!(live_neighbors(&[4, 3, EMPTY, 1]), [4, 3]);
    assert_eq!(live_neighbors(&[4, 3]), [4, 3]);
}

/// The parts of an index of three nodes, the last of them at level 2.
struct Parts {
    zero: Vec<NeighborNodes<8>>,
    features: Vec<i64>,
    layers: Vec<Vec<Node<NeighborNodes<4>>>>,
}

impl Parts {
    fn new() -> Self {
        let hnsw = index(&[0, 0, 2]);
        Parts {
            zero: hnsw.zero_lists().clone(),
            features: hnsw.storage().clone(),
            layers: hnsw.upper_layers().clone(),
        }
    }

    fn assemble(self) -> Index {
        Index::from_parts(
            Line,
            self.zero,
            self.features,
            self.layers,
            Fixed(0),
            Params::new(),
        )
    }
}

#[test]
fn the_parts_of_an_index_make_it_up_again() {
    let hnsw = Parts::new().assemble();
    assert!(hnsw.is_coherent() && hnsw.is_well_formed());
    assert_eq!(hnsw.len(), 3);
    assert_eq!(hnsw.layers(), 3);
    assert_eq!(hnsw.prng().0, 0);
    assert_eq!(pairs(&hnsw.knn(&12, 3)), [(1, 2), (2, 8), (0, 12)]);
    assert_eq!(Line.distance(&3, hnsw.feature(2)), 17);
    assert_eq!(hnsw.metric().distance(&3, &20), 17);
}

#[test]
fn parts_that_do_not_fit_together_are_told_apart() {
    let mut parts = Parts::new();
    parts.zero[0].neighbors[0] = 3;
    assert!(!parts.assemble().is_coherent(), "a link out of the zero layer");

    let mut parts = Parts::new();
    parts.features.pop();
    assert!(!parts.assemble().is_coherent(), "a node without a feature");

    let mut parts = Parts::new();
    parts.features.push(5);
    assert!(parts.assemble().is_well_formed(), "a feature too many");

    let mut parts = Parts::new();
    parts.layers[1][0].neighbors.neighbors[0] = 1;
    assert!(!parts.assemble().is_coherent(), "a link out of a layer");

    let mut parts = Parts::new();
    parts.layers[0][0].zero_node = 3;
    assert!(!parts.assemble().is_coherent(), "a node that is not there");

    let mut parts = Parts::new();
    parts.layers[0][0].next_node = 1;
    assert!(!parts.assemble().is_coherent(), "a node that leads to another");

    let mut parts = Parts::new();
    parts.layers[1][0].next_node = 1;
    assert!(!parts.assemble().is_coherent(), "a node that leads nowhere");

    let mut parts = Parts::new();
    parts.layers[0].clear();
    assert!(!parts.assemble().is_coherent(), "a layer without nodes");

    let mut parts = Parts::new();
    for _ in 0..3 {
        let copy = parts.layers[0][0].clone();
        parts.layers[0].push(copy);
    }
    assert!(!parts.assemble().is_coherent(), "a layer larger than the zero layer");

    let mut parts = Parts::new();
    parts.zero.clear();
    let hnsw = parts.assemble();
    assert!(!hnsw.is_coherent(), "layers over nothing");
    assert_eq!(hnsw.entry(), None);
    assert_eq!(hnsw.layers(), 3);
    assert_eq!(hnsw.layer_len(1), 1);
}

#[test]
fn an_entry_behind_an_empty_slot_is_kept_and_not_followed() {
    let mut parts = Parts::new();
    parts.zero[0].neighbors[7] = 1;
    let hnsw = parts.assemble();
    assert!(hnsw.is_coherent());
    assert!(!hnsw.is_well_formed());
    assert_eq!(hnsw.zero_lists()[0].neighbors[7], 1);
    assert_eq!(pairs(&hnsw.knn(&12, 3)), [(1, 2), (2, 8), (0, 12)]);
}

#[test]
fn the_nodes_of_a_layer_may_stand_in_any_order() {
    let hnsw = index(&[1, 1, 0]);
    let ids = |hnsw: &Index| -> Vec<usize> {
        hnsw.upper_layers()[0].iter().map(|n| n.zero_node).collect()
    };
    assert_eq!(ids(&hnsw), [0, 1]);

    let mut parts = Parts {
        zero: hnsw.zero_lists().clone(),
        features: hnsw.storage().clone(),
        layers: hnsw.upper_layers().clone(),
    };
    parts.layers[0].swap(0, 1);
    parts.layers[0][0].neighbors.neighbors[0] = 1;
    parts.layers[0][1].neighbors.neighbors[0] = 0;
    let mut swapped = parts.assemble();
    assert!(swapped.is_well_formed());
    assert_eq!(ids(&swapped), [1, 0]);
    assert_eq!(swapped.entry(), Some(1));
    assert_eq!(pairs(&swapped.knn(&12, 3)), pairs(&hnsw.knn(&12, 3)));

    let mut searcher = Searcher::new();
    assert_eq!(swapped.insert_at_level(30, 1, &mut searcher), 3);
    assert_eq!(ids(&swapped), [1, 0, 3]);
    assert!(swapped.is_well_formed());
}

#[test]
fn a_node_may_stand_twice_in_a_layer() {
    let hnsw = index(&[1, 0]);
    let mut layers = hnsw.upper_layers().clone();
    let copy = layers[0][0].clone();
    layers[0].push(copy);
    let twice: Index = Index::from_parts(
        Line,
        hnsw.zero_lists().clone(),
        hnsw.storage().clone(),
        layers,
        Fixed(0),
        Params::new(),
    );
    assert!(twice.is_well_formed());
    assert_eq!(twice.layer_len(1), 2);
    assert_eq!(pairs(&twice.knn(&12, 2)), pairs(&hnsw.knn(&12, 2)));
}

/// A filled store without nodes answers whatever it can without looking at one.
#[test]
fn a_filled_store_without_nodes_answers_above_the_zero_layer() {
    let hnsw: Index = Index::new_with_storage(Line, vec![3, 4], Fixed(0));
    let mut searcher = Searcher::new();
    let mut dest = [Neighbor { index: 7, distance: 7 }; 2];
    assert!(hnsw.search_layer(&3, 5, 1, &mut searcher, &mut dest).is_empty());
    assert!(hnsw.search_layer(&3, 0, 0, &mut searcher, &mut dest).is_empty());
    assert!(hnsw.nearest(&3, 0, &mut searcher, &mut dest).is_empty());
    assert!(dest.iter().all(|n| n.index == 7 && n.distance == 7));
    assert_eq!(hnsw.layer_len(0), 2);
    assert_eq!(hnsw.entry(), None);
}

#[test]
fn changes_keep_ids_features_and_order() {
    let mut searcher = Searcher::new();
    let mut fixed: Hnsw<Line, i64, Fixed, 4, 8> = Hnsw::new(Line);
    let mut runtime: HnswRuntime<Line, i64, Fixed> = HnswRuntime::new(Line, 4, 8);
    for (i, x) in [50, 3, 91, 20, 77, 64].into_iter().enumerate() {
        let level = i % 3;
        assert_eq!(fixed.insert_at_level(x, level, &mut searcher), i);
        assert_eq!(runtime.insert_at_level(x, level, &mut searcher), i);
        if i % 2 == 1 {
            fixed.mark_delete(i - 1);
            runtime.mark_delete(i - 1);
        }
        assert_eq!(*fixed.feature(i), x);
        assert!(fixed.is_well_formed());
    }
    for layer in fixed.upper_layers() {
        assert!(layer.windows(2).all(|w| w[0].zero_node < w[1].zero_node));
    }
    assert_eq!(fixed.live_count(), 3);
    let mut dest = [Neighbor { index: 0, distance: 0 }; 4];
    let mut other = dest;
    for query in [0, 21, 60, 100] {
        let one = fixed.nearest(&query, 16, &mut searcher, &mut dest);
        let two = runtime.nearest(&query, 16, &mut searcher, &mut other);
        assert_eq!(pairs(one), pairs(two));
        assert!(one.iter().all(|n| n.index % 2 == 1));
    }
}

/// Units of other widths.
struct Bytes;

impl Metric<u8> for Bytes {
    type Unit = u8;
    fn distance(&self, a: &u8, b: &u8) -> u8 {
        a.abs_diff(*b)
    }
}

struct Wide;

impl Metric<u128> for Wide {
    type Unit = u128;
    fn distance(&self, a: &u128, b: &u128) -> u128 {
        a.abs_diff(*b)
    }
}

#[test]
fn distances_may_be_of_any_width() {
    let mut searcher = Searcher::new();
    let mut hnsw: Hnsw<Bytes, u8, Fixed, 2, 4> = Hnsw::new(Bytes);
    for x in [200u8, 3, 90] {
        hnsw.insert(x, &mut searcher);
    }
    assert_eq!(hnsw.knn(&100, 1)[0].distance, 10u8);

    let mut searcher = Searcher::new();
    let mut hnsw: Hnsw<Wide, u128, Fixed, 2, 4> = Hnsw::new(Wide);
    for x in [u128::MAX, 0, 1 << 100] {
        hnsw.insert(x, &mut searcher);
    }
    assert_eq!(hnsw.knn(&1, 3)[2].distance, u128::MAX - 1);
    assert_eq!(hnsw.knn(&1, 3)[1].index, 2);
}

#[test]
fn a_pool_of_none_still_links_newcomers() {
    let mut searcher = Searcher::new();
    let mut hnsw = Index::new_params(Line, Params::new().ef_construction(0));
    for x in [0, 10, 20, 30] {
        hnsw.insert_at_level(x, 0, &mut searcher);
    }
    for list in hnsw.zero_lists() {
        assert!(!live_neighbors(&list.neighbors).is_empty());
    }
    assert_eq!(hnsw.knn(&29, 1)[0].index, 3);
}

/// Three hundred scattered numbers, some of them at higher levels.
fn scattered() -> Hnsw<Line, i64, Fixed, 3, 5> {
    let mut searcher = Searcher::new();
    let mut hnsw = Hnsw::new(Line);
    for i in 0..300i64 {
        let level = [0, 0, 1, 0, 2, 0, 0, 3][i as usize % 8];
        hnsw.insert_at_level(i * i * 7919 % 1009, level, &mut searcher);
    }
    hnsw
}

#[test]
fn nothing_that_a_result_links_to_is_better() {
    let mut hnsw = scattered();
    for id in (0..300).step_by(4) {
        hnsw.mark_delete(id);
    }
    let mut searcher = Searcher::new();
    for query in (0..1009).step_by(13) {
        let mut dest = blank(20);
        let found = hnsw
            .nearest_filtered(&query, 7, &mut searcher, &mut dest, &|id| id % 5 != 0)
            .to_vec();
        let worst = found.last().expect("something").distance;
        for n in &found {
            assert!(n.index % 5 != 0 && !hnsw.is_deleted(n.index));
            assert_eq!(n.distance, Line.distance(&query, hnsw.feature(n.index)));
            for &link in live_neighbors(&hnsw.zero_lists()[n.index].neighbors) {
                if link % 5 != 0 && !hnsw.is_deleted(link) {
                    assert!(
                        found.iter().any(|m| m.index == link)
                            || (found.len() == 7
                                && Line.distance(&query, hnsw.feature(link)) >= worst)
                    );
                }
            }
        }
    }
}

#[test]
fn a_wide_search_finds_everything_that_links_lead_to() {
    let hnsw = scattered();
    let mut searcher = Searcher::new();
    for (query, reached) in [(0i64, 19), (500, 185), (1008, 91)] {
        let mut dest = blank(400);
        let found = hnsw.nearest(&query, 301, &mut searcher, &mut dest).to_vec();
        let ids: Vec<usize> = found.iter().map(|n| n.index).collect();
        assert!(found.windows(2).all(|w| w[0].distance <= w[1].distance));
        assert_eq!(ids.len(), reached);
        for &id in &ids {
            for link in live_neighbors(&hnsw.zero_lists()[id].neighbors) {
                assert!(ids.contains(link), "{id} links to {link}");
            }
        }
    }
}

#[test]
fn the_way_down_is_greedy() {
    let hnsw = scattered();
    let mut searcher = Searcher::new();
    for query in (0..1009).step_by(11) {
        for level in 1..hnsw.layers() {
            let mut dest = blank(5);
            let found = hnsw
                .search_layer(&query, 9, level, &mut searcher, &mut dest)
                .to_vec();
            assert_eq!(found.len(), 1);
            let node = &hnsw.upper_layers()[level - 1][found[0].index];
            assert_eq!(
                found[0].distance,
                Line.distance(&query, hnsw.feature(node.zero_node))
            );
            for &link in live_neighbors(&node.neighbors.neighbors) {
                let other = hnsw.layer_feature(level, link);
                assert!(found[0].distance <= Line.distance(&query, other));
            }
        }
    }
}

#[test]
fn newcomers_link_to_live_nodes() {
    let mut hnsw = scattered();
    let mut searcher = Searcher::new();
    for id in 0..300 {
        if id % 3 != 0 {
            hnsw.mark_delete(id);
        }
    }
    for x in [1, 77, 500, 1005] {
        let id = hnsw.insert_at_level(x, 0, &mut searcher);
        let links = live_neighbors(&hnsw.zero_lists()[id].neighbors).to_vec();
        assert!(!links.is_empty());
        let dead = links.iter().filter(|&&n| hnsw.is_deleted(n)).count();
        assert!(dead <= 1, "only the node where the search enters may be dead");
    }
}

#[test]
fn insertions_build_the_graph_that_they_always_build() {
    let hnsw = scattered();
    let mut bytes: Vec<u8> = Vec::new();
    for list in hnsw.zero_lists() {
        for &n in live_neighbors(&list.neighbors).iter().chain([&EMPTY]) {
            bytes.extend((n as u64).to_le_bytes());
        }
    }
    for layer in hnsw.upper_layers() {
        for node in layer {
            let links = live_neighbors(&node.neighbors.neighbors);
            for &n in [&node.zero_node, &node.next_node]
                .into_iter()
                .chain(links)
                .chain([&EMPTY])
            {
                bytes.extend((n as u64).to_le_bytes());
            }
        }
    }
    let mut digest: u64 = 0xcbf2_9ce4_8422_2325;
    for b in bytes {
        digest = (digest ^ b as u64).wrapping_mul(0x0000_0100_0000_01B3);
    }
    assert_eq!(digest, 0x75ff_6804_c200_cb2c);
    assert_eq!(
        live_neighbors(&hnsw.zero_lists()[1].neighbors),
        [220, 286, 68, 10, 54]
    );
}
