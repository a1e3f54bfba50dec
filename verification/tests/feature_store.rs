//! The features of an index may live in a memory mapping.
//!
//! The mapping holds bytes, so a feature is the bytes of its coordinates, and the
//! metric decodes them.

use hnsw::{FeatureStore, Hnsw, HnswRuntime, LevelSource, Metric, Neighbor, Searcher};
use memmap2::MmapMut;
use rand::{Rng, RngCore, SeedableRng};
use rand_pcg::Pcg64;

const DIM: usize = 8;
const BYTES: usize = 32;
const M: usize = 12;
const M0: usize = 24;

type Feature = [u8; BYTES];

fn encode(coordinates: &[f32; DIM]) -> Feature {
    let mut bytes = [0u8; BYTES];
    for (i, v) in coordinates.iter().enumerate() {
        bytes[4 * i..4 * i + 4].copy_from_slice(&v.to_ne_bytes());
    }
    bytes
}

fn decode(feature: &Feature) -> [f32; DIM] {
    let mut coordinates = [0.0f32; DIM];
    for (i, v) in coordinates.iter_mut().enumerate() {
        let mut bytes = [0u8; 4];
        bytes.copy_from_slice(&feature[4 * i..4 * i + 4]);
        *v = f32::from_ne_bytes(bytes);
    }
    coordinates
}

/// A generator, and the level distribution.
#[derive(Clone)]
struct Prng(Pcg64);

impl LevelSource for Prng {
    fn draw_level(&mut self, degree: usize, level_scale: u64) -> usize {
        let uniform = self.0.next_u64() as f64 / u64::MAX as f64;
        let scale = f64::from_bits(level_scale);
        (-libm::log(uniform) * libm::log(degree as f64).recip() * scale) as usize
    }
}

struct Euclidean;

impl Metric<Feature> for Euclidean {
    type Unit = u64;
    fn distance(&self, a: &Feature, b: &Feature) -> u64 {
        decode(a)
            .iter()
            .zip(decode(b).iter())
            .map(|(&a, &b)| (a - b).powi(2))
            .sum::<f32>()
            .sqrt()
            .to_bits() as u64
    }
}

/// Features in a mapping of a fixed size.
struct MmapFeatureStore {
    mmap: MmapMut,
    len: usize,
    capacity: usize,
}

impl MmapFeatureStore {
    fn new(capacity: usize) -> std::io::Result<Self> {
        Ok(Self {
            mmap: MmapMut::map_anon(capacity * BYTES)?,
            len: 0,
            capacity,
        })
    }
}

impl FeatureStore<Feature> for MmapFeatureStore {
    fn get_feature(&self, index: usize) -> &Feature {
        assert!(
            index < self.len,
            "feature index {index} out of bounds (len {})",
            self.len
        );
        let offset = index * BYTES;
        <&Feature>::try_from(&self.mmap[offset..offset + BYTES]).expect("a whole feature")
    }

    fn push_feature(&mut self, feature: Feature) {
        assert!(
            self.len < self.capacity,
            "MmapFeatureStore capacity {} exceeded",
            self.capacity
        );
        let offset = self.len * BYTES;
        self.mmap[offset..offset + BYTES].copy_from_slice(&feature);
        self.len += 1;
    }

    fn feature_count(&self) -> usize {
        self.len
    }
}

/// Four clusters of forty: every neighbor list is full, so links are selected.
fn clustered_corpus() -> Vec<Feature> {
    let mut rng = Pcg64::seed_from_u64(0xC1051E5);
    let centers = [-60.0f32, -20.0, 20.0, 60.0];
    let mut out = Vec::new();
    for &c in &centers {
        for _ in 0..40 {
            let mut v = [0.0f32; DIM];
            for (d, slot) in v.iter_mut().enumerate() {
                *slot = c + (d as f32) * 0.05 + rng.gen_range(-1.0f32..1.0);
            }
            out.push(encode(&v));
        }
    }
    out
}

fn probes(features: &[Feature]) -> Vec<Feature> {
    let mut rng = Pcg64::seed_from_u64(7);
    features
        .iter()
        .copied()
        .chain((0..50).map(|_| {
            let mut v = [0.0f32; DIM];
            for slot in v.iter_mut() {
                *slot = rng.gen_range(-80.0f32..80.0);
            }
            encode(&v)
        }))
        .collect()
}

fn knn_const<const CM: usize, const CM0: usize, S: FeatureStore<Feature>>(
    hnsw: &Hnsw<Euclidean, Feature, Prng, CM, CM0, S>,
    q: &Feature,
    ef: usize,
    k: usize,
) -> Vec<Neighbor<u64>> {
    let mut searcher = Searcher::default();
    let mut dest = vec![
        Neighbor {
            index: !0,
            distance: !0
        };
        k
    ];
    hnsw.nearest(q, ef, &mut searcher, &mut dest).to_vec()
}

fn knn_runtime<S: FeatureStore<Feature>>(
    hnsw: &HnswRuntime<Euclidean, Feature, Prng, S>,
    q: &Feature,
    ef: usize,
    k: usize,
) -> Vec<Neighbor<u64>> {
    let mut searcher = Searcher::default();
    let mut dest = vec![
        Neighbor {
            index: !0,
            distance: !0
        };
        k
    ];
    hnsw.nearest(q, ef, &mut searcher, &mut dest).to_vec()
}

#[test]
fn mmap_store_matches_vec_store_on_saturated_clustered_data() {
    let features = clustered_corpus();

    let mut vec_searcher = Searcher::default();
    let mut vec_hnsw: Hnsw<Euclidean, Feature, Prng, M, M0> = Hnsw::new_params_and_prng(
        Euclidean,
        Default::default(),
        Prng(Pcg64::seed_from_u64(42)),
    );
    for f in &features {
        vec_hnsw.insert(*f, &mut vec_searcher);
    }

    let store = MmapFeatureStore::new(features.len()).expect("create mmap store");
    let mut mmap_searcher = Searcher::default();
    let mut mmap_hnsw: Hnsw<Euclidean, Feature, Prng, M, M0, MmapFeatureStore> =
        Hnsw::new_with_storage_and_params(
            Euclidean,
            store,
            Default::default(),
            Prng(Pcg64::seed_from_u64(42)),
        );
    for f in &features {
        mmap_hnsw.insert(*f, &mut mmap_searcher);
    }

    assert_eq!(vec_hnsw.len(), mmap_hnsw.len(), "index sizes must match");

    let ef = 64;
    let k = 20;
    for (qi, q) in probes(&features).iter().enumerate() {
        let a = knn_const(&vec_hnsw, q, ef, k);
        let b = knn_const(&mmap_hnsw, q, ef, k);
        assert_eq!(
            a, b,
            "mmap-backed const index diverged from Vec-backed on probe {qi}"
        );
    }
}

#[test]
fn runtime_mmap_store_matches_vec_store_on_saturated_clustered_data() {
    let features = clustered_corpus();

    let mut vec_searcher = Searcher::default();
    let mut vec_hnsw: HnswRuntime<Euclidean, Feature, Prng> = HnswRuntime::new_params_and_prng(
        Euclidean,
        M,
        M0,
        Default::default(),
        Prng(Pcg64::seed_from_u64(42)),
    );
    for f in &features {
        vec_hnsw.insert(*f, &mut vec_searcher);
    }

    let store = MmapFeatureStore::new(features.len()).expect("create mmap store");
    let mut mmap_searcher = Searcher::default();
    let mut mmap_hnsw: HnswRuntime<Euclidean, Feature, Prng, MmapFeatureStore> =
        HnswRuntime::new_with_storage_and_params(
            Euclidean,
            M,
            M0,
            store,
            Default::default(),
            Prng(Pcg64::seed_from_u64(42)),
        );
    for f in &features {
        mmap_hnsw.insert(*f, &mut mmap_searcher);
    }

    assert_eq!(vec_hnsw.len(), mmap_hnsw.len(), "index sizes must match");

    let ef = 64;
    let k = 20;
    for (qi, q) in probes(&features).iter().enumerate() {
        let a = knn_runtime(&vec_hnsw, q, ef, k);
        let b = knn_runtime(&mmap_hnsw, q, ef, k);
        assert_eq!(
            a, b,
            "mmap-backed runtime index diverged from Vec-backed on probe {qi}"
        );
    }
}

#[test]
fn mmap_store_preserves_cross_cluster_reachability() {
    let mut features: Vec<Feature> = Vec::new();
    for c in [1.0f32, 2.0, 3.0] {
        let mut v = [0.0f32; DIM];
        v[0] = c;
        features.push(encode(&v));
    }
    for i in 0..37 {
        let mut v = [0.0f32; DIM];
        v[0] = 500.0 + i as f32;
        v[1] = 500.0;
        features.push(encode(&v));
    }

    let store = MmapFeatureStore::new(features.len()).expect("create mmap store");
    let mut searcher = Searcher::default();
    let mut hnsw: Hnsw<Euclidean, Feature, Prng, 16, 32, MmapFeatureStore> =
        Hnsw::new_with_storage(Euclidean, store, Prng(Pcg64::seed_from_u64(42)));
    for f in &features {
        hnsw.insert(*f, &mut searcher);
    }

    let origin = encode(&[0.0f32; DIM]);
    let got = knn_const::<16, 32, MmapFeatureStore>(&hnsw, &origin, 200, 3);

    assert_eq!(got.len(), 3, "must return three neighbors");
    for n in &got {
        let d = f32::from_bits(n.distance as u32);
        assert!(
            d < 10.0,
            "a dense far cluster hid the near points through mmap storage: got \
             distance {}, expected the points at distance 1, 2 and 3",
            d
        );
    }
}

#[test]
fn concurrently_live_feature_handles_stay_valid() {
    let features = clustered_corpus();
    let mut store = MmapFeatureStore::new(features.len()).expect("create mmap store");
    for f in &features {
        store.push_feature(*f);
    }

    let a_ix = 0usize;
    let b_ix = features.len() - 1;

    let a = store.get_feature(a_ix);
    let b = store.get_feature(b_ix);

    let c = store.get_feature(features.len() / 2);

    assert_ne!(
        a.as_ptr(),
        b.as_ptr(),
        "each index must have its own stable address"
    );
    assert_ne!(a.as_ptr(), c.as_ptr(), "third read aliased the first");

    assert_eq!(
        a, &features[a_ix],
        "first handle was disturbed by later reads"
    );
    assert_eq!(
        b, &features[b_ix],
        "second handle was disturbed by later reads"
    );

    let metric = Euclidean;
    let d = metric.distance(a, b);
    assert_eq!(
        d,
        metric.distance(&features[a_ix], &features[b_ix]),
        "distance over two live store handles must equal the direct distance"
    );
    assert_ne!(
        f32::from_bits(d as u32),
        0.0,
        "two distinct features must not measure as identical - the handles aliased"
    );
}
