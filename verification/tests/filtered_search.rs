//! A filter is applied during the search and not to its results.

use std::collections::BTreeSet;
use std::sync::atomic::{AtomicUsize, Ordering};

use hnsw::{Hnsw, HnswRuntime, LevelSource, Metric, Neighbor, Searcher};
use rand::{Rng, RngCore, SeedableRng};
use rand_pcg::Pcg64;

/// A generator, and the level distribution.
#[derive(Clone)]
struct Prng(Pcg64);

impl Default for Prng {
    fn default() -> Self {
        Prng(Pcg64::from_seed(Default::default()))
    }
}

impl LevelSource for Prng {
    fn draw_level(&mut self, degree: usize, level_scale: u64) -> usize {
        let uniform = self.0.next_u64() as f64 / u64::MAX as f64;
        let scale = f64::from_bits(level_scale);
        (-libm::log(uniform) * libm::log(degree as f64).recip() * scale) as usize
    }
}

struct CountingEuclidean {
    calls: AtomicUsize,
}

impl CountingEuclidean {
    fn new() -> Self {
        Self {
            calls: AtomicUsize::new(0),
        }
    }
    fn take(&self) -> usize {
        self.calls.swap(0, Ordering::Relaxed)
    }
}

impl Metric<Vec<f32>> for &CountingEuclidean {
    type Unit = u64;
    fn distance(&self, a: &Vec<f32>, b: &Vec<f32>) -> u64 {
        self.calls.fetch_add(1, Ordering::Relaxed);
        a.iter()
            .zip(b.iter())
            .map(|(&a, &b)| (a - b).powi(2))
            .sum::<f32>()
            .sqrt()
            .to_bits() as u64
    }
}

struct Euclidean;

impl Metric<Vec<f32>> for Euclidean {
    type Unit = u64;
    fn distance(&self, a: &Vec<f32>, b: &Vec<f32>) -> u64 {
        a.iter()
            .zip(b.iter())
            .map(|(&a, &b)| (a - b).powi(2))
            .sum::<f32>()
            .sqrt()
            .to_bits() as u64
    }
}

const DIM: usize = 8;
const N: usize = 4000;
const M: usize = 12;
const M0: usize = 24;
const K: usize = 10;
const EF: usize = 32;
const SELECTIVITY_STEP: usize = 20;

fn matches(id: usize) -> bool {
    id % SELECTIVITY_STEP == 0
}

fn corpus(seed: u64) -> Vec<Vec<f32>> {
    let mut rng = Pcg64::seed_from_u64(seed);
    (0..N)
        .map(|_| (0..DIM).map(|_| rng.gen_range(-1.0f32..1.0f32)).collect())
        .collect()
}

fn build(features: &[Vec<f32>]) -> Hnsw<Euclidean, Vec<f32>, Prng, M, M0> {
    let mut searcher = Searcher::default();
    let mut hnsw =
        Hnsw::new_params_and_prng(Euclidean, Default::default(), Prng(Pcg64::seed_from_u64(42)));
    for f in features {
        hnsw.insert(f.clone(), &mut searcher);
    }
    hnsw
}

fn build_runtime(features: &[Vec<f32>]) -> HnswRuntime<Euclidean, Vec<f32>, Prng> {
    let mut searcher = Searcher::default();
    let mut hnsw = HnswRuntime::new_params_and_prng(
        Euclidean,
        M,
        M0,
        Default::default(),
        Prng(Pcg64::seed_from_u64(42)),
    );
    for f in features {
        hnsw.insert(f.clone(), &mut searcher);
    }
    hnsw
}

fn dest(k: usize) -> Vec<Neighbor<u64>> {
    vec![
        Neighbor {
            index: !0,
            distance: !0
        };
        k
    ]
}

fn ground_truth(
    features: &[Vec<f32>],
    q: &[f32],
    k: usize,
    pred: impl Fn(usize) -> bool,
) -> Vec<usize> {
    let qv = q.to_vec();
    let mut all: Vec<(u64, usize)> = (0..features.len())
        .filter(|&i| pred(i))
        .map(|i| (Euclidean.distance(&qv, &features[i]), i))
        .collect();
    all.sort();
    all.into_iter().take(k).map(|(_, i)| i).collect()
}

fn post_filter_emulation(
    hnsw: &Hnsw<Euclidean, Vec<f32>, Prng, M, M0>,
    q: &[f32],
    k: usize,
    over_fetch: usize,
) -> Vec<Neighbor<u64>> {
    let wide = k * over_fetch;
    let mut searcher = Searcher::default();
    let mut d = dest(wide);
    let mut got = hnsw
        .nearest(&q.to_vec(), wide.max(EF), &mut searcher, &mut d)
        .to_vec();
    got.retain(|n| matches(n.index));
    got.truncate(k);
    got
}

fn queries(features: &[Vec<f32>], count: usize) -> Vec<Vec<f32>> {
    let mut rng = Pcg64::seed_from_u64(0xC0FFEE);
    (0..count)
        .map(|_| {
            let base = rng.gen_range(0..N);
            features[base]
                .iter()
                .map(|&x| x + rng.gen_range(-0.1f32..0.1f32))
                .collect()
        })
        .collect()
}

#[test]
fn filtered_search_fills_k_where_post_filtering_under_returns() {
    let features = corpus(1);
    let hnsw = build(&features);
    let qs = queries(&features, 100);

    let mut filtered_short = 0usize;
    let mut post_short = 0usize;
    let mut filtered_hits = 0usize;
    let mut truth_total = 0usize;

    for q in &qs {
        let truth: BTreeSet<usize> = ground_truth(&features, q, K, matches).into_iter().collect();
        assert_eq!(
            truth.len(),
            K,
            "fixture must have at least K matching nodes"
        );

        let mut searcher = Searcher::default();
        let mut d = dest(K);
        let got = hnsw
            .nearest_filtered(&q.to_vec(), EF, &mut searcher, &mut d, &matches)
            .to_vec();

        for n in &got {
            assert!(
                matches(n.index),
                "non-matching node {} was returned by nearest_filtered",
                n.index
            );
        }
        if got.len() < K {
            filtered_short += 1;
        }
        filtered_hits += got.iter().filter(|n| truth.contains(&n.index)).count();
        truth_total += truth.len();

        if post_filter_emulation(&hnsw, q, K, 10).len() < K {
            post_short += 1;
        }
    }

    let recall = filtered_hits as f64 / truth_total as f64;

    assert_eq!(
        filtered_short,
        0,
        "nearest_filtered under-returned on {filtered_short}/{} queries",
        qs.len()
    );
    assert!(
        recall >= 0.90,
        "filtered recall@{} was {:.4}, below the 0.90 floor - returning a \
         full k of the WRONG matching nodes is not a fix",
        K,
        recall
    );
    assert!(
        post_short > qs.len() / 2,
        "the post-filter emulation was expected to under-return on most queries \
         at 5% selectivity, but only {post_short}/{} were short",
        qs.len()
    );
}

#[test]
fn filtered_search_does_not_degenerate_to_a_full_scan() {
    let features = corpus(1);
    let metric = CountingEuclidean::new();

    let mut searcher = Searcher::default();
    let mut hnsw: Hnsw<&CountingEuclidean, Vec<f32>, Prng, M, M0> =
        Hnsw::new_params_and_prng(&metric, Default::default(), Prng(Pcg64::seed_from_u64(42)));
    for f in &features {
        hnsw.insert(f.clone(), &mut searcher);
    }
    metric.take();

    let qs = queries(&features, 20);
    let mut total = 0usize;
    let predicate_calls = AtomicUsize::new(0);

    for q in &qs {
        let counted = |id: usize| {
            predicate_calls.fetch_add(1, Ordering::Relaxed);
            matches(id)
        };
        let mut s = Searcher::default();
        let mut d = dest(K);
        let _ = hnsw.nearest_filtered(&q.to_vec(), EF, &mut s, &mut d, &counted);
        total += metric.take();
    }

    let per_query = total as f64 / qs.len() as f64;
    println!(
        "filtered search: {per_query:.0} distance evals/query out of {N} nodes \
         ({:.1}%), {} predicate calls total",
        100.0 * per_query / N as f64,
        predicate_calls.load(Ordering::Relaxed)
    );

    assert!(
        per_query < N as f64 * 0.58,
        "filtered search performed {per_query:.0} distance evaluations per query \
         against a corpus of {N} ({:.1}%), over the 58% budget.",
        100.0 * per_query / N as f64
    );
}

#[test]
fn accept_all_predicate_matches_unfiltered_search() {
    for seed in [2u64, 5, 11] {
        let features = corpus(seed);
        let hnsw = build(&features);
        let rt = build_runtime(&features);

        let mut plain_hits = 0usize;
        let mut all_hits = 0usize;
        let mut rt_plain_hits = 0usize;
        let mut rt_all_hits = 0usize;
        let mut total = 0usize;

        for q in queries(&features, 50) {
            let truth: BTreeSet<usize> = ground_truth(&features, &q, K, |_| true)
                .into_iter()
                .collect();

            let mut s1 = Searcher::default();
            let mut d1 = dest(K);
            let plain = hnsw.nearest(&q, EF, &mut s1, &mut d1).to_vec();

            let mut s2 = Searcher::default();
            let mut d2 = dest(K);
            let all = hnsw
                .nearest_filtered(&q, EF, &mut s2, &mut d2, &|_| true)
                .to_vec();

            assert_eq!(all.len(), K, "accept-all filtered search under-filled");
            assert_eq!(
                all, plain,
                "seed {seed}: an accept-all predicate must return exactly what \
                 unfiltered search returns"
            );

            let mut s3 = Searcher::default();
            let mut d3 = dest(K);
            let rt_plain = rt.nearest(&q, EF, &mut s3, &mut d3).to_vec();

            let mut s4 = Searcher::default();
            let mut d4 = dest(K);
            let rt_all = rt
                .nearest_filtered(&q, EF, &mut s4, &mut d4, &|_| true)
                .to_vec();

            assert_eq!(
                rt_all.len(),
                K,
                "runtime accept-all filtered search under-filled"
            );
            assert_eq!(
                rt_all, rt_plain,
                "seed {seed}: the runtime index must show the same accept-all \
                 equality as the const-generic one"
            );

            plain_hits += plain.iter().filter(|n| truth.contains(&n.index)).count();
            all_hits += all.iter().filter(|n| truth.contains(&n.index)).count();
            rt_plain_hits += rt_plain.iter().filter(|n| truth.contains(&n.index)).count();
            rt_all_hits += rt_all.iter().filter(|n| truth.contains(&n.index)).count();
            total += truth.len();
        }

        let (plain_r, all_r) = (
            plain_hits as f64 / total as f64,
            all_hits as f64 / total as f64,
        );
        let (rt_plain_r, rt_all_r) = (
            rt_plain_hits as f64 / total as f64,
            rt_all_hits as f64 / total as f64,
        );

        assert!(
            all_r > 0.5,
            "seed {}: accept-all filtered recall collapsed to {:.4}; the predicate \
             accepts everything, so this should behave like a normal search",
            seed,
            all_r
        );
        assert!(
            rt_all_r > 0.5,
            "seed {}: runtime accept-all filtered recall collapsed to {:.4}",
            seed,
            rt_all_r
        );
        assert!(
            plain_r > 0.5 && rt_plain_r > 0.5,
            "seed {}: unfiltered recall is {:.4}/{:.4}; the fixture is broken",
            seed,
            plain_r,
            rt_plain_r
        );
    }
}

#[test]
fn a_rejected_navigation_seed_does_not_occupy_a_result_slot() {
    let features = corpus(3);
    let hnsw = build(&features);

    let seed_node = hnsw.entry().expect("non-empty index has an entry point");

    let pred = |id: usize| id != seed_node;

    for q in queries(&features, 50) {
        let truth: BTreeSet<usize> = ground_truth(&features, &q, K, pred).into_iter().collect();

        let mut s = Searcher::default();
        let mut d = dest(K);
        let got = hnsw
            .nearest_filtered(&q, EF, &mut s, &mut d, &pred)
            .to_vec();

        assert_eq!(
            got.len(),
            K,
            "result set under-filled ({} < {K}) when the navigation seed was \
             rejected - the seed consumed a result slot",
            got.len()
        );
        for n in &got {
            assert_ne!(
                n.index, seed_node,
                "the rejected navigation seed leaked into results"
            );
        }
        assert!(
            got.iter().filter(|n| truth.contains(&n.index)).count() * 4 >= K * 3,
            "recall collapsed when the seed was rejected"
        );
    }

    let mut s = Searcher::default();
    let mut d = dest(K);
    let got = hnsw
        .nearest_filtered(&features[seed_node], EF, &mut s, &mut d, &pred)
        .to_vec();
    assert_eq!(
        got.len(),
        K,
        "querying at the rejected seed's own position under-filled"
    );
    assert!(got.iter().all(|n| n.index != seed_node));
}

#[test]
fn predicate_and_tombstones_compose() {
    let features = corpus(4);
    let mut hnsw = build(&features);

    let deleted: BTreeSet<usize> = (0..N).step_by(7).collect();
    for &d in &deleted {
        hnsw.mark_delete(d);
    }

    let live_and_matching = |id: usize| matches(id) && !deleted.contains(&id);

    for q in queries(&features, 50) {
        let truth: BTreeSet<usize> = ground_truth(&features, &q, K, live_and_matching)
            .into_iter()
            .collect();
        assert_eq!(truth.len(), K, "fixture must retain K live matching nodes");

        let mut s = Searcher::default();
        let mut d = dest(K);
        let got = hnsw
            .nearest_filtered(&q, EF, &mut s, &mut d, &matches)
            .to_vec();

        for n in &got {
            assert!(
                matches(n.index),
                "non-matching node {} surfaced under composition",
                n.index
            );
            assert!(
                !deleted.contains(&n.index),
                "soft-deleted node {} surfaced under composition",
                n.index
            );
        }
        assert_eq!(
            got.len(),
            K,
            "composition under-filled ({} < {K}) - a tombstone or a rejected node \
             consumed a result slot",
            got.len()
        );
    }
}

#[test]
fn runtime_filtered_search_fills_k() {
    let features = corpus(1);
    let rt = build_runtime(&features);

    let mut short = 0usize;
    let mut hits = 0usize;
    let mut total = 0usize;

    let qs = queries(&features, 50);
    for q in &qs {
        let truth: BTreeSet<usize> = ground_truth(&features, q, K, matches).into_iter().collect();

        let mut s = Searcher::default();
        let mut d = dest(K);
        let got = rt
            .nearest_filtered(q, EF, &mut s, &mut d, &matches)
            .to_vec();

        for n in &got {
            assert!(
                matches(n.index),
                "runtime returned non-matching {}",
                n.index
            );
        }
        if got.len() < K {
            short += 1;
        }
        hits += got.iter().filter(|n| truth.contains(&n.index)).count();
        total += truth.len();
    }

    assert_eq!(
        short, 0,
        "runtime nearest_filtered under-returned on {short} queries"
    );
    let recall = hits as f64 / total as f64;
    assert!(
        recall >= 0.90,
        "runtime filtered recall@{} was {:.4}, below the 0.90 floor",
        K,
        recall
    );
}

#[test]
fn zero_ef_returns_nothing_in_both_indexes() {
    let features = corpus(1);
    let hnsw = build(&features);
    let rt = build_runtime(&features);

    for probe in [0usize, 20, 1000] {
        let q = &features[probe];

        let mut s = Searcher::default();
        let mut d = dest(K);
        let got = hnsw.nearest_filtered(q, 0, &mut s, &mut d, &|_| true);
        assert!(
            got.is_empty(),
            "ef=0 returned {} results from the const index",
            got.len()
        );

        let mut s2 = Searcher::default();
        let mut d2 = dest(K);
        let got_rt = rt.nearest_filtered(q, 0, &mut s2, &mut d2, &|_| true);
        assert!(
            got_rt.is_empty(),
            "ef=0 returned {} results from the runtime index",
            got_rt.len()
        );
    }
}

#[test]
fn runtime_filtered_search_does_not_degenerate_to_a_full_scan() {
    let features = corpus(1);
    let metric = CountingEuclidean::new();

    let mut searcher = Searcher::default();
    let mut rt: HnswRuntime<&CountingEuclidean, Vec<f32>, Prng> = HnswRuntime::new_params_and_prng(
        &metric,
        M,
        M0,
        Default::default(),
        Prng(Pcg64::seed_from_u64(42)),
    );
    for f in &features {
        rt.insert(f.clone(), &mut searcher);
    }
    metric.take();

    let qs = queries(&features, 20);
    let mut total = 0usize;
    for q in &qs {
        let mut s = Searcher::default();
        let mut d = dest(K);
        let _ = rt.nearest_filtered(&q.to_vec(), EF, &mut s, &mut d, &matches);
        total += metric.take();
    }

    let per_query = total as f64 / qs.len() as f64;
    println!(
        "runtime filtered search: {per_query:.0} distance evals/query out of {N} \
         nodes ({:.1}%)",
        100.0 * per_query / N as f64
    );

    assert!(
        per_query < N as f64 * 0.58,
        "runtime filtered search performed {per_query:.0} distance evaluations \
         per query against a corpus of {N} ({:.1}%), over the 58% budget",
        100.0 * per_query / N as f64
    );
}

/// Each node is measured at most once, and the search stops as soon as nothing that
/// waits can improve its results: that leaves this many evaluations per query.
#[test]
fn filtered_search_makes_no_more_evaluations_than_it_needs() {
    let features = corpus(1);
    let metric = CountingEuclidean::new();

    let mut searcher = Searcher::default();
    let mut hnsw: Hnsw<&CountingEuclidean, Vec<f32>, Prng, M, M0> = Hnsw::new_params_and_prng(
        &metric,
        Default::default(),
        Prng(Pcg64::seed_from_u64(42)),
    );
    for f in &features {
        hnsw.insert(f.clone(), &mut searcher);
    }
    metric.take();

    let qs = queries(&features, 20);
    let mut d = dest(K);
    for q in &qs {
        hnsw.nearest_filtered(q, EF, &mut searcher, &mut d, &matches);
    }
    let per_query = metric.take() as f64 / qs.len() as f64;
    assert_eq!(per_query.round(), 2117.0);
}
