//! The level scale flattens the hierarchy, is not written, and cannot make it grow
//! without bound.

use hnsw::{Hnsw, LevelSource, Metric, Neighbor, Params, Searcher};
use rand::{Rng, RngCore, SeedableRng};
use rand_pcg::Pcg64;

/// A generator, and the level distribution.
#[derive(Clone)]
struct Prng(Pcg64);

impl Default for Prng {
    fn default() -> Self {
        Prng(Pcg64::from_seed(Default::default()))
    }
}

impl LevelSource for Prng {
    fn draw_level(&mut self, degree: usize, level_scale: u64) -> usize {
        let uniform = self.0.next_u64() as f64 / u64::MAX as f64;
        let scale = f64::from_bits(level_scale);
        (-libm::log(uniform) * libm::log(degree as f64).recip() * scale) as usize
    }
}

struct Euclidean;

impl Metric<Vec<f32>> for Euclidean {
    type Unit = u64;
    fn distance(&self, a: &Vec<f32>, b: &Vec<f32>) -> u64 {
        a.iter()
            .zip(b.iter())
            .map(|(&a, &b)| (a - b).powi(2))
            .sum::<f32>()
            .sqrt()
            .to_bits() as u64
    }
}

const DIM: usize = 8;
const N: usize = 3000;
const M: usize = 12;
const M0: usize = 24;
const K: usize = 10;
const EF: usize = 64;
const MAX_RECALL_LOSS: f64 = 0.05;

fn corpus() -> Vec<Vec<f32>> {
    let mut rng = Pcg64::seed_from_u64(0xDE1E7E);
    (0..N)
        .map(|_| (0..DIM).map(|_| rng.gen_range(-1.0f32..1.0f32)).collect())
        .collect()
}

fn build(params: Params) -> Hnsw<Euclidean, Vec<f32>, Prng, M, M0> {
    let mut searcher = Searcher::default();
    let mut hnsw = Hnsw::new_params_and_prng(Euclidean, params, Prng(Pcg64::seed_from_u64(42)));
    for f in corpus() {
        hnsw.insert(f.clone(), &mut searcher);
    }
    hnsw
}

#[test]
fn the_default_level_scale_reproduces_the_previous_hierarchy() {
    let plain = build(Params::new());
    let explicit = build(Params::new().level_scale(1.0f64.to_bits()));

    assert_eq!(
        plain.layers(),
        explicit.layers(),
        "an explicit scale of 1.0 produced a different number of layers than the \
         default, so the default is not 1.0"
    );
    for level in 0..plain.layers() {
        assert_eq!(
            plain.layer_len(level),
            explicit.layer_len(level),
            "layer {level} differs in size between the default and an explicit \
             scale of 1.0"
        );
    }
}

#[test]
fn a_smaller_level_scale_produces_a_shallower_hierarchy() {
    let tall = build(Params::new());
    let flat = build(Params::new().level_scale(0.35f64.to_bits()));

    assert!(
        flat.layers() < tall.layers(),
        "level_scale 0.35 produced {} layers, the same or more than the default's \
         {}",
        flat.layers(),
        tall.layers()
    );

    assert_eq!(
        flat.len(),
        N,
        "flattening the hierarchy lost nodes from the zero layer"
    );
}

#[test]
fn a_flatter_hierarchy_keeps_recall_within_budget() {
    let features = corpus();
    let tall = build(Params::new());
    let flat = build(Params::new().level_scale(0.35f64.to_bits()));

    let mut qrng = Pcg64::seed_from_u64(7);
    let mut tall_hits = 0usize;
    let mut flat_hits = 0usize;
    let mut total = 0usize;

    for _ in 0..100 {
        let q: Vec<f32> = (0..DIM).map(|_| qrng.gen_range(-1.0f32..1.0f32)).collect();

        let mut all: Vec<(u64, usize)> = features
            .iter()
            .enumerate()
            .map(|(i, f)| (Euclidean.distance(&q, f), i))
            .collect();
        all.sort();
        let truth: std::collections::BTreeSet<usize> =
            all.into_iter().take(K).map(|(_, i)| i).collect();

        for (hnsw, hits) in [(&tall, &mut tall_hits), (&flat, &mut flat_hits)] {
            let mut s = Searcher::default();
            let mut dest = vec![
                Neighbor {
                    index: !0,
                    distance: !0
                };
                K
            ];
            let got = hnsw.nearest(&q, EF, &mut s, &mut dest).to_vec();
            *hits += got.iter().filter(|n| truth.contains(&n.index)).count();
        }
        total += truth.len();
    }

    let tall_recall = tall_hits as f64 / total as f64;
    let flat_recall = flat_hits as f64 / total as f64;
    assert!(
        tall_recall - flat_recall <= MAX_RECALL_LOSS,
        "flattening cost {:.4} recall (from {tall_recall:.4} to {flat_recall:.4}), \
         over the {MAX_RECALL_LOSS} budget",
        tall_recall - flat_recall
    );
}

#[test]
fn params_without_a_level_scale_field_still_deserialize() {
    let legacy = r#"{"ef_construction":400}"#;
    let fields: serde_json::Value =
        serde_json::from_str(legacy).expect("params without a level_scale must load");
    let wire = fields["ef_construction"].as_u64().expect("a number");
    let params = Params::from_wire(wire).expect("a number that fits");

    let rebuilt = build(params);
    let baseline = build(Params::new());
    assert_eq!(
        rebuilt.layers(),
        baseline.layers(),
        "params without a scale were read as having one that changes the hierarchy"
    );
}

#[test]
fn params_occupy_exactly_the_legacy_bincode_layout() {
    let current = bincode::serialize(&Params::new().level_scale(0.35f64.to_bits()).to_wire())
        .expect("current params must serialize");
    let legacy = bincode::serialize(&400usize).expect("legacy must serialize");

    assert_eq!(
        current, legacy,
        "the level scale must not be on the wire"
    );
}

#[test]
fn a_legacy_bincode_params_payload_still_decodes() {
    let bytes = bincode::serialize(&400usize).unwrap();
    let wire: u64 = bincode::deserialize(&bytes).expect("a payload without a scale must decode");
    let decoded = Params::from_wire(wire).expect("a number that fits");

    let rebuilt = build(decoded);
    let baseline = build(Params::new());
    assert_eq!(
        rebuilt.layers(),
        baseline.layers(),
        "a payload without a scale decoded to one that changes the hierarchy"
    );
}

#[test]
fn an_extreme_level_scale_cannot_allocate_unbounded_layers() {
    let mut searcher = Searcher::default();
    let mut hnsw: Hnsw<Euclidean, Vec<f32>, Prng, M, M0> = Hnsw::new_params_and_prng(
        Euclidean,
        Params::new().level_scale(5000.0f64.to_bits()),
        Prng(Pcg64::seed_from_u64(42)),
    );
    for i in 0..10 {
        hnsw.insert(vec![i as f32; DIM], &mut searcher);
    }

    assert!(
        hnsw.layers() <= 65,
        "an extreme level scale produced {} layers; the cap is not being applied \
         and a larger scale would exhaust memory",
        hnsw.layers()
    );
}

#[test]
fn the_level_cap_does_not_bind_on_a_normal_index() {
    let normal = build(Params::new());
    assert!(
        normal.layers() < 65,
        "a default index already reaches {} layers, so the cap is not purely a \
         safety bound and is reshaping normal graphs",
        normal.layers()
    );
}
