//! A soft-deleted node that a search starts from takes up no room among the results.

use hnsw::{Hnsw, HnswRuntime, LevelSource, Metric, Neighbor, Searcher};
use rand::{Rng, RngCore, SeedableRng};
use rand_pcg::Pcg64;

/// A generator, and the level distribution.
#[derive(Clone)]
struct Prng(Pcg64);

impl Default for Prng {
    fn default() -> Self {
        Prng(Pcg64::from_seed(Default::default()))
    }
}

impl LevelSource for Prng {
    fn draw_level(&mut self, degree: usize, level_scale: u64) -> usize {
        let uniform = self.0.next_u64() as f64 / u64::MAX as f64;
        let scale = f64::from_bits(level_scale);
        (-libm::log(uniform) * libm::log(degree as f64).recip() * scale) as usize
    }
}

struct Euclidean;

impl Metric<Vec<f32>> for Euclidean {
    type Unit = u64;
    fn distance(&self, a: &Vec<f32>, b: &Vec<f32>) -> u64 {
        a.iter()
            .zip(b.iter())
            .map(|(&a, &b)| (a - b).powi(2))
            .sum::<f32>()
            .sqrt()
            .to_bits() as u64
    }
}

const DIM: usize = 4;
const N: usize = 64;
const M: usize = 12;
const M0: usize = 24;
const TRIALS: u64 = 30;

fn corpus(seed: u64) -> Vec<Vec<f32>> {
    let mut rng = Pcg64::seed_from_u64(seed);
    (0..N)
        .map(|_| (0..DIM).map(|_| rng.gen_range(-1.0f32..1.0f32)).collect())
        .collect()
}

fn build(features: &[Vec<f32>], seed: u64) -> Hnsw<Euclidean, Vec<f32>, Prng, M, M0> {
    let mut searcher = Searcher::default();
    let mut hnsw =
        Hnsw::new_params_and_prng(Euclidean, Default::default(), Prng(Pcg64::seed_from_u64(seed)));
    for f in features {
        hnsw.insert(f.clone(), &mut searcher);
    }
    hnsw
}

fn build_runtime(features: &[Vec<f32>], seed: u64) -> HnswRuntime<Euclidean, Vec<f32>, Prng> {
    let mut searcher = Searcher::default();
    let mut hnsw = HnswRuntime::new_params_and_prng(
        Euclidean,
        M,
        M0,
        Default::default(),
        Prng(Pcg64::seed_from_u64(seed)),
    );
    for f in features {
        hnsw.insert(f.clone(), &mut searcher);
    }
    hnsw
}

fn knn(
    hnsw: &Hnsw<Euclidean, Vec<f32>, Prng, M, M0>,
    q: &[f32],
    ef: usize,
    k: usize,
) -> Vec<Neighbor<u64>> {
    let mut searcher = Searcher::default();
    let mut dest = vec![
        Neighbor {
            index: !0,
            distance: !0
        };
        k
    ];
    hnsw.nearest(&q.to_vec(), ef, &mut searcher, &mut dest)
        .to_vec()
}

fn knn_runtime(
    hnsw: &HnswRuntime<Euclidean, Vec<f32>, Prng>,
    q: &[f32],
    ef: usize,
    k: usize,
) -> Vec<Neighbor<u64>> {
    let mut searcher = Searcher::default();
    let mut dest = vec![
        Neighbor {
            index: !0,
            distance: !0
        };
        k
    ];
    hnsw.nearest(&q.to_vec(), ef, &mut searcher, &mut dest)
        .to_vec()
}

#[test]
fn control_zero_slack_fills_completely_without_deletions() {
    for seed in 0..TRIALS {
        let features = corpus(seed);
        let hnsw = build(&features, seed);
        let rt = build_runtime(&features, seed);

        let probe = hnsw.entry().expect("non-empty index has an entry point");
        let budget = N;

        let res = knn(&hnsw, &features[probe], budget, budget);
        assert_eq!(
            res.len(),
            budget,
            "seed {seed}: control under-filled ({} < {budget}) with no deletions",
            res.len()
        );

        let res_rt = knn_runtime(&rt, &features[probe], budget, budget);
        assert_eq!(
            res_rt.len(),
            budget,
            "seed {seed}: runtime control under-filled ({} < {budget}) with no \
             deletions",
            res_rt.len()
        );
    }
}

#[test]
fn deleted_seed_does_not_steal_a_result_slot() {
    let mut failures = Vec::new();

    for seed in 0..TRIALS {
        let features = corpus(seed);
        let mut hnsw = build(&features, seed);

        let seed_node = hnsw.entry().expect("non-empty index has an entry point");

        hnsw.mark_delete(seed_node);

        let live = hnsw.live_count();
        assert_eq!(live, N - 1, "seed {seed}: exactly one node was deleted");

        let res = knn(&hnsw, &features[seed_node], live, live);

        for n in &res {
            assert_ne!(
                n.index, seed_node,
                "seed {seed}: the deleted seed node leaked into results"
            );
        }

        if res.len() != live {
            failures.push(format!(
                "seed {seed}: got {} of {live} live neighbors",
                res.len()
            ));
        }
    }

    assert!(
        failures.is_empty(),
        "the deleted navigation seed consumed a result slot in {}/{TRIALS} trials \
         (the control fills completely at the same budget):\n  {}",
        failures.len(),
        failures.join("\n  ")
    );
}

#[test]
fn runtime_deleted_seed_does_not_steal_a_result_slot() {
    let mut failures = Vec::new();

    for seed in 0..TRIALS {
        let features = corpus(seed);
        let mut hnsw = build_runtime(&features, seed);

        let seed_node = hnsw.entry().expect("non-empty index has an entry point");
        hnsw.mark_delete(seed_node);

        let live = hnsw.live_count();
        assert_eq!(live, N - 1, "seed {seed}: exactly one node was deleted");

        let res = knn_runtime(&hnsw, &features[seed_node], live, live);

        for n in &res {
            assert_ne!(
                n.index, seed_node,
                "seed {seed}: the deleted seed node leaked into runtime results"
            );
        }

        if res.len() != live {
            failures.push(format!(
                "seed {seed}: got {} of {live} live neighbors",
                res.len()
            ));
        }
    }

    assert!(
        failures.is_empty(),
        "the deleted navigation seed consumed a runtime result slot in \
         {}/{TRIALS} trials:\n  {}",
        failures.len(),
        failures.join("\n  ")
    );
}

#[test]
fn const_and_runtime_agree_on_deleted_seed_probe() {
    for seed in 0..TRIALS {
        let features = corpus(seed);
        let mut cst = build(&features, seed);
        let mut rt = build_runtime(&features, seed);

        let seed_node = cst.entry().expect("non-empty index has an entry point");
        assert_eq!(
            seed_node,
            rt.entry()
                .expect("non-empty runtime index has an entry point"),
            "seed {seed}: const and runtime must agree on the entry point"
        );

        cst.mark_delete(seed_node);
        rt.mark_delete(seed_node);

        let live = cst.live_count();
        assert_eq!(live, rt.live_count());

        assert_eq!(
            knn(&cst, &features[seed_node], live, live),
            knn_runtime(&rt, &features[seed_node], live, live),
            "seed {seed}: runtime diverged from const on the deleted-seed probe"
        );
    }
}
