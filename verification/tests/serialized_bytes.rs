//! The bytes that a fixed, seeded index is written as, under both encodings that
//! are in use.

use bincode::Options;
use hnsw::{Hnsw, LevelSource, Metric, Params, Searcher};
use rand::{Rng, RngCore, SeedableRng};
use rand_pcg::Pcg64;

struct Euclidean;

impl Metric<Vec<f32>> for Euclidean {
    type Unit = u64;
    fn distance(&self, a: &Vec<f32>, b: &Vec<f32>) -> u64 {
        a.iter()
            .zip(b.iter())
            .map(|(&a, &b)| (a - b).powi(2))
            .sum::<f32>()
            .sqrt()
            .to_bits() as u64
    }
}

struct Prng(Pcg64);

impl LevelSource for Prng {
    fn draw_level(&mut self, degree: usize, level_scale: u64) -> usize {
        let uniform = self.0.next_u64() as f64 / u64::MAX as f64;
        let scale = f64::from_bits(level_scale);
        (-libm::log(uniform) * libm::log(degree as f64).recip() * scale) as usize
    }
}

/// FNV-1a.
fn digest(bytes: &[u8]) -> u64 {
    let mut h: u64 = 0xcbf2_9ce4_8422_2325;
    for &b in bytes {
        h ^= b as u64;
        h = h.wrapping_mul(0x0000_0100_0000_01B3);
    }
    h
}

#[test]
fn a_seeded_index_is_written_as_it_always_was() {
    let mut rng = Pcg64::seed_from_u64(0xC0FFEE);
    let mut searcher = Searcher::default();
    let mut hnsw: Hnsw<Euclidean, Vec<f32>, Prng, 12, 24> =
        Hnsw::new_params_and_prng(Euclidean, Params::default(), Prng(Pcg64::seed_from_u64(42)));

    for _ in 0..200 {
        let v: Vec<f32> = (0..8).map(|_| rng.gen_range(-1.0f32..1.0)).collect();
        hnsw.insert(v, &mut searcher);
    }

    let zero: Vec<Vec<u64>> = hnsw.zero_lists().iter().map(|l| l.to_wire()).collect();
    let layers: Vec<Vec<(u64, u64, Vec<u64>)>> = hnsw
        .upper_layers()
        .iter()
        .map(|layer| {
            layer
                .iter()
                .map(|n| (n.zero_node as u64, n.next_node as u64, n.neighbors.to_wire()))
                .collect()
        })
        .collect();
    let parts = (
        (),
        zero,
        hnsw.storage(),
        layers,
        &hnsw.prng().0,
        hnsw.params().to_wire(),
    );

    let fixint = bincode::DefaultOptions::new()
        .with_little_endian()
        .with_fixint_encoding()
        .serialize(&parts)
        .expect("serialize");
    let varint = bincode::DefaultOptions::new()
        .serialize(&parts)
        .expect("serialize varint");

    assert_eq!(fixint.len(), 49760);
    assert_eq!(digest(&fixint), 0x2097_de0c_a22b_2883);
    assert_eq!(varint.len(), 11948);
    assert_eq!(digest(&varint), 0x6e99_623a_ac50_911c);
}
