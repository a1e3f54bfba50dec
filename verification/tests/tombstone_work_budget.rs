//! Soft-deleted nodes are searched no more than others.

use hnsw::{Hnsw, HnswRuntime, LevelSource, Metric, Neighbor, Searcher};
use rand::{Rng, RngCore, SeedableRng};
use rand_pcg::Pcg64;
use std::cell::Cell;

/// A generator, and the level distribution.
#[derive(Clone)]
struct Prng(Pcg64);

impl Default for Prng {
    fn default() -> Self {
        Prng(Pcg64::from_seed(Default::default()))
    }
}

impl LevelSource for Prng {
    fn draw_level(&mut self, degree: usize, level_scale: u64) -> usize {
        let uniform = self.0.next_u64() as f64 / u64::MAX as f64;
        let scale = f64::from_bits(level_scale);
        (-libm::log(uniform) * libm::log(degree as f64).recip() * scale) as usize
    }
}

struct Counting {
    evals: Cell<usize>,
}

impl Counting {
    fn new() -> Self {
        Counting { evals: Cell::new(0) }
    }
    fn reset(&self) {
        self.evals.set(0);
    }
    fn get(&self) -> usize {
        self.evals.get()
    }
}

impl Metric<Vec<f32>> for &Counting {
    type Unit = u64;
    fn distance(&self, a: &Vec<f32>, b: &Vec<f32>) -> u64 {
        self.evals.set(self.evals.get() + 1);
        a.iter()
            .zip(b.iter())
            .map(|(&a, &b)| (a - b).powi(2))
            .sum::<f32>()
            .sqrt()
            .to_bits() as u64
    }
}

const N: usize = 4000;
const DIM: usize = 64;
const K: usize = 10;
const EF: usize = 32;
const EF_RECALL: usize = 16;
const MAX_EXCESS_FRACTION: f64 = 0.5;
const MAX_DEFICIT: f64 = 0.02;

type Idx<'a> = Hnsw<&'a Counting, Vec<f32>, Prng, 12, 24>;

fn corpus(seed: u64) -> Vec<Vec<f32>> {
    let mut rng = Pcg64::seed_from_u64(seed);
    (0..N)
        .map(|_| (0..DIM).map(|_| rng.gen_range(-1.0f32..1.0)).collect())
        .collect()
}

fn queries(count: usize) -> Vec<Vec<f32>> {
    let mut rng = Pcg64::seed_from_u64(777);
    (0..count)
        .map(|_| (0..DIM).map(|_| rng.gen_range(-1.0f32..1.0)).collect())
        .collect()
}

fn build<'a>(metric: &'a Counting, features: &[Vec<f32>]) -> Idx<'a> {
    let mut searcher = Searcher::default();
    let mut hnsw: Idx = Hnsw::new(metric);
    for f in features {
        hnsw.insert(f.clone(), &mut searcher);
    }
    hnsw
}

fn delete_fraction(hnsw: &mut Idx, density: f64) -> Vec<usize> {
    let mut live = Vec::new();
    let step = 1.0 / density;
    let mut next = 0.0f64;
    for id in 0..N {
        if (id as f64) >= next {
            hnsw.mark_delete(id);
            next += step;
        } else {
            live.push(id);
        }
    }
    live
}

fn work_per_query(metric: &Counting, hnsw: &Idx, qs: &[Vec<f32>]) -> f64 {
    metric.reset();
    let mut searcher = Searcher::default();
    for q in qs {
        let mut dest = vec![
            Neighbor {
                index: !0,
                distance: !0
            };
            K
        ];
        hnsw.nearest(q, EF, &mut searcher, &mut dest);
    }
    metric.get() as f64 / qs.len() as f64
}

#[test]
fn tombstone_traversal_respects_the_work_budget() {
    let features = corpus(11);
    let metric = Counting::new();
    let qs = queries(40);

    let clean = build(&metric, &features);
    let w_clean = work_per_query(&metric, &clean, &qs);

    let mut all_dead = clean.clone();
    for id in 0..N {
        all_dead.mark_delete(id);
    }
    let w_full = work_per_query(&metric, &all_dead, &qs);

    let mut sparse = clean.clone();
    let _ = delete_fraction(&mut sparse, 0.25);
    let w_25 = work_per_query(&metric, &sparse, &qs);

    assert!(
        w_full > w_clean,
        "baseline sanity: a fully tombstoned index ({w_full:.1}) must cost more \
         than a clean one ({w_clean:.1}), or the fixture cannot measure anything"
    );

    let excess = (w_25 - w_clean) / (w_full - w_clean);
    assert!(
        excess < MAX_EXCESS_FRACTION,
        "at 25% deletion density the search retained {:.0}% of the full-scan \
         penalty ({w_25:.1} evals/query against {w_clean:.1} clean and \
         {w_full:.1} fully tombstoned).",
        excess * 100.0
    );
}

#[test]
fn recall_matches_an_index_rebuilt_without_the_deleted_nodes() {
    let features = corpus(11);
    let metric = Counting::new();
    let qs = queries(60);

    let whole = build(&metric, &features);
    for density in [0.25f64, 0.90] {
        let mut tombstoned = whole.clone();
        let live = delete_fraction(&mut tombstoned, density);
        let live_feats: Vec<Vec<f32>> = live.iter().map(|&i| features[i].clone()).collect();
        let rebuilt = build(&metric, &live_feats);

        let mut tomb_hits = 0usize;
        let mut rebuilt_hits = 0usize;
        let mut total = 0usize;

        for q in &qs {
            let mut all: Vec<(u64, usize)> = live_feats
                .iter()
                .enumerate()
                .map(|(i, f)| ((&metric).distance(q, f), i))
                .collect();
            all.sort();
            let truth_positions: Vec<usize> = all.into_iter().take(K).map(|(_, i)| i).collect();
            let truth_original: std::collections::BTreeSet<usize> =
                truth_positions.iter().map(|&p| live[p]).collect();
            let truth_rebuilt: std::collections::BTreeSet<usize> =
                truth_positions.into_iter().collect();

            let mut s = Searcher::default();
            let mut dest = vec![
                Neighbor {
                    index: !0,
                    distance: !0
                };
                K
            ];
            let got = tombstoned.nearest(q, EF_RECALL, &mut s, &mut dest);
            tomb_hits += got
                .iter()
                .filter(|n| truth_original.contains(&n.index))
                .count();

            let mut s2 = Searcher::default();
            let mut dest2 = vec![
                Neighbor {
                    index: !0,
                    distance: !0
                };
                K
            ];
            let got2 = rebuilt.nearest(q, EF_RECALL, &mut s2, &mut dest2);
            rebuilt_hits += got2
                .iter()
                .filter(|n| truth_rebuilt.contains(&n.index))
                .count();

            total += K;
        }

        let tomb = tomb_hits as f64 / total as f64;
        let reference = rebuilt_hits as f64 / total as f64;
        assert!(
            tomb >= reference - MAX_DEFICIT,
            "at {:.0}% deletion density the tombstoned index recalled {tomb:.4} \
             against {reference:.4} for an index rebuilt without the deleted \
             nodes - a deficit of {:.4}, over the {MAX_DEFICIT} budget.",
            density * 100.0,
            reference - tomb
        );
    }
}

#[test]
fn results_stay_full_and_free_of_tombstones() {
    let features = corpus(11);
    let metric = Counting::new();
    let qs = queries(40);

    let whole = build(&metric, &features);
    for density in [0.75f64, 0.90, 0.95] {
        let mut hnsw = whole.clone();
        let live = delete_fraction(&mut hnsw, density);
        let live_set: std::collections::BTreeSet<usize> = live.iter().copied().collect();
        let want = K.min(live.len());

        let mut searcher = Searcher::default();
        for q in &qs {
            let mut dest = vec![
                Neighbor {
                    index: !0,
                    distance: !0
                };
                K
            ];
            let got = hnsw.nearest(q, EF, &mut searcher, &mut dest);

            for n in got.iter() {
                assert!(
                    live_set.contains(&n.index),
                    "a deleted node ({}) was returned at {:.0}% density",
                    n.index,
                    density * 100.0
                );
            }
            assert_eq!(
                got.len(),
                want,
                "returned {} of {want} results at {:.0}% density with {} live \
                 nodes remaining",
                got.len(),
                density * 100.0,
                live.len()
            );
        }
    }
}

fn build_rt<'a>(
    metric: &'a Counting,
    features: &[Vec<f32>],
) -> HnswRuntime<&'a Counting, Vec<f32>, Prng> {
    let mut searcher = Searcher::default();
    let mut hnsw = HnswRuntime::new(metric, 12, 24);
    for f in features {
        hnsw.insert(f.clone(), &mut searcher);
    }
    hnsw
}

#[test]
fn runtime_index_also_respects_the_work_budget() {
    let features = corpus(11);
    let metric = Counting::new();
    let qs = queries(40);

    let measure = |hnsw: &HnswRuntime<&Counting, Vec<f32>, Prng>| -> f64 {
        metric.reset();
        let mut searcher = Searcher::default();
        for q in &qs {
            let mut dest = vec![
                Neighbor {
                    index: !0,
                    distance: !0
                };
                K
            ];
            hnsw.nearest(q, EF, &mut searcher, &mut dest);
        }
        metric.get() as f64 / qs.len() as f64
    };

    let mut sparse = build_rt(&metric, &features);
    let mut dense = sparse.clone();
    let step_delete = |h: &mut HnswRuntime<&Counting, Vec<f32>, Prng>, density: f64| {
        let step = 1.0 / density;
        let mut next = 0.0f64;
        for id in 0..N {
            if (id as f64) >= next {
                h.mark_delete(id);
                next += step;
            }
        }
    };
    step_delete(&mut sparse, 0.25);
    step_delete(&mut dense, 0.90);

    let w_sparse = measure(&sparse);
    let w_dense = measure(&dense);
    let ratio = w_sparse / w_dense;

    assert!(
        ratio < 0.85,
        "runtime index: work barely responds to deletion density ({w_sparse:.1} \
         vs {w_dense:.1}, ratio {ratio:.2})"
    );
}
