//! Soft-deleted nodes are never reported, the entry point among them.

use std::collections::BTreeSet;

use hnsw::{Hnsw, HnswRuntime, LevelSource, Metric, Neighbor, Searcher};
use rand::{Rng, RngCore, SeedableRng};
use rand_pcg::Pcg64;

/// A generator, and the level distribution.
#[derive(Clone)]
struct Prng(Pcg64);

impl Default for Prng {
    fn default() -> Self {
        Prng(Pcg64::from_seed(Default::default()))
    }
}

impl LevelSource for Prng {
    fn draw_level(&mut self, degree: usize, level_scale: u64) -> usize {
        let uniform = self.0.next_u64() as f64 / u64::MAX as f64;
        let scale = f64::from_bits(level_scale);
        (-libm::log(uniform) * libm::log(degree as f64).recip() * scale) as usize
    }
}

struct Euclidean;

impl Metric<Vec<f32>> for Euclidean {
    type Unit = u64;
    fn distance(&self, a: &Vec<f32>, b: &Vec<f32>) -> u64 {
        a.iter()
            .zip(b.iter())
            .map(|(&a, &b)| (a - b).powi(2))
            .sum::<f32>()
            .sqrt()
            .to_bits() as u64
    }
}

const DIM: usize = 8;
const N: usize = 400;
const M: usize = 12;
const M0: usize = 24;

fn corpus() -> Vec<Vec<f32>> {
    let mut rng = Pcg64::seed_from_u64(0xDE1E7E);
    (0..N)
        .map(|_| (0..DIM).map(|_| rng.gen_range(-1.0f32..1.0f32)).collect())
        .collect()
}

fn build(features: &[Vec<f32>]) -> Hnsw<Euclidean, Vec<f32>, Prng, M, M0> {
    let mut searcher = Searcher::default();
    let mut hnsw =
        Hnsw::new_params_and_prng(Euclidean, Default::default(), Prng(Pcg64::seed_from_u64(42)));
    for f in features {
        hnsw.insert(f.clone(), &mut searcher);
    }
    hnsw
}

fn knn(
    hnsw: &Hnsw<Euclidean, Vec<f32>, Prng, M, M0>,
    q: &[f32],
    ef: usize,
    k: usize,
) -> Vec<Neighbor<u64>> {
    let mut searcher = Searcher::default();
    let mut dest = vec![
        Neighbor {
            index: !0,
            distance: !0
        };
        k
    ];
    hnsw.nearest(&q.to_vec(), ef, &mut searcher, &mut dest)
        .to_vec()
}

#[test]
fn deleted_nodes_never_returned_and_entry_deletion_survives() {
    let features = corpus();
    let mut hnsw = build(&features);

    let ef = 64;
    let k = 20;

    let probe0 = 17usize;
    let pre = knn(&hnsw, &features[probe0], ef, k);
    assert_eq!(
        pre[0].index, probe0,
        "pre-delete: point {probe0} must be its own nearest neighbor"
    );

    let entry0 = hnsw.entry().expect("non-empty index has an entry point");
    let mut deleted: BTreeSet<usize> = BTreeSet::new();
    deleted.insert(entry0);
    for i in (0..N).step_by(3) {
        deleted.insert(i);
    }
    for &d in &deleted {
        hnsw.mark_delete(d);
    }

    assert_eq!(
        hnsw.live_count(),
        N - deleted.len(),
        "live_count must drop by exactly the number of distinct deleted nodes"
    );

    let mut probe_rng = Pcg64::seed_from_u64(7);
    let probes: Vec<Vec<f32>> = (0..N)
        .filter(|i| !deleted.contains(i))
        .map(|i| features[i].clone())
        .chain((0..50).map(|_| {
            (0..DIM)
                .map(|_| probe_rng.gen_range(-1.0f32..1.0f32))
                .collect()
        }))
        .collect();

    let live_total = N - deleted.len();
    assert!(live_total > k, "test needs more live nodes than k");

    for (qi, q) in probes.iter().enumerate() {
        let res = knn(&hnsw, q, ef, k);

        for n in &res {
            assert!(
                !deleted.contains(&n.index),
                "probe {qi}: deleted node {} leaked into search results",
                n.index
            );
        }

        assert_eq!(
            res.len(),
            k,
            "probe {qi}: result set under-filled ({} < {k}) - deleted nodes \
             consumed the ef/result budget",
            res.len()
        );
    }

    let new_entry = hnsw.entry().expect("index still has live nodes");
    assert!(
        !deleted.contains(&new_entry),
        "entry point must be a live node after the old entry was deleted"
    );
}

fn build_runtime(features: &[Vec<f32>]) -> HnswRuntime<Euclidean, Vec<f32>, Prng> {
    let mut searcher = Searcher::default();
    let mut hnsw = HnswRuntime::new_params_and_prng(
        Euclidean,
        M,
        M0,
        Default::default(),
        Prng(Pcg64::seed_from_u64(42)),
    );
    for f in features {
        hnsw.insert(f.clone(), &mut searcher);
    }
    hnsw
}

fn knn_runtime(
    hnsw: &HnswRuntime<Euclidean, Vec<f32>, Prng>,
    q: &[f32],
    ef: usize,
    k: usize,
) -> Vec<Neighbor<u64>> {
    let mut searcher = Searcher::default();
    let mut dest = vec![
        Neighbor {
            index: !0,
            distance: !0
        };
        k
    ];
    hnsw.nearest(&q.to_vec(), ef, &mut searcher, &mut dest)
        .to_vec()
}

#[test]
fn runtime_deleted_nodes_never_returned_and_entry_deletion_survives() {
    let features = corpus();
    let mut hnsw = build_runtime(&features);

    let ef = 64;
    let k = 20;

    let probe0 = 17usize;
    let pre = knn_runtime(&hnsw, &features[probe0], ef, k);
    assert_eq!(
        pre[0].index, probe0,
        "pre-delete: point {probe0} must be its own nearest neighbor"
    );

    let entry0 = hnsw.entry().expect("non-empty index has an entry point");
    let mut deleted: BTreeSet<usize> = BTreeSet::new();
    deleted.insert(entry0);
    for i in (0..N).step_by(3) {
        deleted.insert(i);
    }
    for &d in &deleted {
        hnsw.mark_delete(d);
    }

    assert_eq!(
        hnsw.live_count(),
        N - deleted.len(),
        "live_count must drop by exactly the number of distinct deleted nodes"
    );

    let mut probe_rng = Pcg64::seed_from_u64(7);
    let probes: Vec<Vec<f32>> = (0..N)
        .filter(|i| !deleted.contains(i))
        .map(|i| features[i].clone())
        .chain((0..50).map(|_| {
            (0..DIM)
                .map(|_| probe_rng.gen_range(-1.0f32..1.0f32))
                .collect()
        }))
        .collect();

    let live_total = N - deleted.len();
    assert!(live_total > k, "test needs more live nodes than k");

    for (qi, q) in probes.iter().enumerate() {
        let res = knn_runtime(&hnsw, q, ef, k);

        for n in &res {
            assert!(
                !deleted.contains(&n.index),
                "probe {qi}: deleted node {} leaked into runtime search results",
                n.index
            );
        }

        assert_eq!(
            res.len(),
            k,
            "probe {qi}: runtime result set under-filled ({} < {k}) - deleted \
             nodes consumed the ef/result budget",
            res.len()
        );
    }

    let new_entry = hnsw.entry().expect("index still has live nodes");
    assert!(
        !deleted.contains(&new_entry),
        "runtime entry point must be a live node after the old entry was deleted"
    );
}

#[test]
fn runtime_and_const_agree_under_identical_deletions() {
    let features = corpus();
    let mut cst = build(&features);
    let mut rt = build_runtime(&features);

    let ef = 64;
    let k = 20;

    let mut deleted: BTreeSet<usize> = BTreeSet::new();
    deleted.insert(cst.entry().expect("non-empty index has an entry point"));
    for i in (0..N).step_by(3) {
        deleted.insert(i);
    }
    for &d in &deleted {
        cst.mark_delete(d);
        rt.mark_delete(d);
    }

    assert_eq!(
        cst.live_count(),
        rt.live_count(),
        "live_count must agree between const and runtime"
    );

    let mut probe_rng = Pcg64::seed_from_u64(7);
    let probes: Vec<Vec<f32>> = features
        .iter()
        .cloned()
        .chain((0..50).map(|_| {
            (0..DIM)
                .map(|_| probe_rng.gen_range(-1.0f32..1.0f32))
                .collect()
        }))
        .collect();

    for (qi, q) in probes.iter().enumerate() {
        let cst_res = knn(&cst, q, ef, k);
        let rt_res = knn_runtime(&rt, q, ef, k);
        assert_eq!(
            cst_res, rt_res,
            "runtime diverged from const under identical deletions on probe {qi}"
        );
    }
}
