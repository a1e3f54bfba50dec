//! The items of a layer map to the nodes they stand for.

use hnsw::{Hnsw, LevelSource, Metric, Neighbor, Searcher};
use rand::{Rng, RngCore, SeedableRng};
use rand_pcg::Pcg64;

/// A generator, and the level distribution.
#[derive(Clone)]
struct Prng(Pcg64);

impl Default for Prng {
    fn default() -> Self {
        Prng(Pcg64::from_seed(Default::default()))
    }
}

impl LevelSource for Prng {
    fn draw_level(&mut self, degree: usize, level_scale: u64) -> usize {
        let uniform = self.0.next_u64() as f64 / u64::MAX as f64;
        let scale = f64::from_bits(level_scale);
        (-libm::log(uniform) * libm::log(degree as f64).recip() * scale) as usize
    }
}

struct Euclidean;

impl Metric<Vec<f32>> for Euclidean {
    type Unit = u64;
    fn distance(&self, a: &Vec<f32>, b: &Vec<f32>) -> u64 {
        a.iter()
            .zip(b.iter())
            .map(|(&a, &b)| (a - b).powi(2))
            .sum::<f32>()
            .sqrt()
            .to_bits() as u64
    }
}

const DIM: usize = 8;
const N: usize = 2000;
const M: usize = 12;
const M0: usize = 24;

fn build() -> (Hnsw<Euclidean, Vec<f32>, Prng, M, M0>, Vec<Vec<f32>>) {
    let mut rng = Pcg64::seed_from_u64(0xDE1E7E);
    let features: Vec<Vec<f32>> = (0..N)
        .map(|_| (0..DIM).map(|_| rng.gen_range(-1.0f32..1.0f32)).collect())
        .collect();
    let mut searcher = Searcher::default();
    let mut hnsw =
        Hnsw::new_params_and_prng(Euclidean, Default::default(), Prng(Pcg64::seed_from_u64(42)));
    for f in &features {
        hnsw.insert(f.clone(), &mut searcher);
    }
    (hnsw, features)
}

#[test]
fn layer_item_id_is_in_range_for_every_declared_layer_item() {
    let (hnsw, _features) = build();

    assert!(
        hnsw.layers() >= 3,
        "fixture must build a multi-level hierarchy to exercise mid AND top \
         levels, got {} level(s)",
        hnsw.layers()
    );

    for level in 0..hnsw.layers() {
        let len = hnsw.layer_len(level);
        assert!(len > 0, "level {} is declared to have items", level);

        for item in 0..len {
            let id = hnsw.layer_item_id(level, item);
            assert!(
                id < hnsw.len(),
                "layer_item_id({level}, {item}) = {id} is not a valid zero-layer \
                 node (index has {} nodes)",
                hnsw.len()
            );
        }
    }
}

#[test]
fn layer_item_id_maps_search_results_to_the_node_that_was_scored() {
    let (hnsw, features) = build();
    let metric = Euclidean;

    for &qi in &[3usize, 41, 500, 1234, 1999] {
        let q = features[qi].clone();
        let mut searcher = Searcher::default();

        for level in 1..hnsw.layers() {
            let mut dest = vec![
                Neighbor {
                    index: !0,
                    distance: !0
                };
                4
            ];
            let got = hnsw
                .search_layer(&q, 8, level, &mut searcher, &mut dest)
                .to_vec();

            assert!(
                !got.is_empty(),
                "query {}: search_layer returned nothing at level {}",
                qi,
                level
            );

            for hit in &got {
                assert!(
                    hit.index < hnsw.layer_len(level),
                    "query {qi}: search_layer returned item {} at level {level}, \
                     which is outside the {} items layer_len reports",
                    hit.index,
                    hnsw.layer_len(level)
                );

                let id = hnsw.layer_item_id(level, hit.index);
                assert_eq!(
                    metric.distance(&q, &features[id]),
                    hit.distance,
                    "query {qi}: layer_item_id({level}, {}) = {id}, but that \
                     node's distance does not match the distance search_layer \
                     reported - the item was mapped into the wrong layer",
                    hit.index
                );

                assert_eq!(
                    hnsw.layer_feature(level, hit.index),
                    &features[id],
                    "query {qi}: layer_feature({level}, {}) disagrees with the \
                     feature of layer_item_id's own result",
                    hit.index
                );
            }
        }
    }
}

#[test]
fn level_zero_is_the_identity_mapping() {
    let (hnsw, features) = build();

    assert_eq!(hnsw.layer_len(0), N, "the zero layer holds every node");
    for item in [0usize, 1, 999, N - 1] {
        assert_eq!(hnsw.layer_item_id(0, item), item);
        assert_eq!(hnsw.layer_feature(0, item), &features[item]);
    }
}
