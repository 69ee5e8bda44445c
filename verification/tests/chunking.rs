//! Round-trip and chunk-bound behaviour of the chunker.

use desync_rs::assembler::{AssembleOps, AssemblerConfig};
use desync_rs::chunker::{discriminator_from_avg, ChunkerConfig};
use desync_rs::index::{InMemoryIndex, Index};
use desync_rs::store::LocalStore;

fn lcg_bytes(seed: u64, len: usize) -> Vec<u8> {
    let mut x: u64 = seed;
    let mut out = Vec::with_capacity(len);
    for _ in 0..len {
        x = x
            .wrapping_mul(6364136223846793005)
            .wrapping_add(1442695040888963407);
        out.push((x >> 56) as u8);
    }
    out
}

fn make(source: Vec<u8>, min: u64, max: u64, avg: u64) -> ChunkerConfig {
    let mut cfg = ChunkerConfig {
        index: InMemoryIndex::new(""),
        store: LocalStore::new("store", min, max, avg),
        source,
        min_size: min,
        max_size: max,
        avg_size: avg,
    };
    cfg.chunk();
    cfg
}

fn extract(cfg: ChunkerConfig) -> Vec<u8> {
    let mut a = AssemblerConfig {
        seed: None,
        seed_index: None,
        store: cfg.store,
        new_index: InMemoryIndex::from_bytes("", cfg.index.buf.clone()),
        output: Vec::new(),
    };
    a.assemble().expect("assembly failed");
    a.output
}

fn round_trip(source: Vec<u8>, min: u64, max: u64, avg: u64) {
    let cfg = make(source.clone(), min, max, avg);
    let out = extract(cfg);
    assert_eq!(out, source);
}

#[test]
fn round_trip_empty() {
    round_trip(Vec::new(), 64, 256, 128);
}

#[test]
fn round_trip_one_byte() {
    round_trip(vec![42], 64, 256, 128);
}

#[test]
fn round_trip_exactly_min() {
    round_trip(lcg_bytes(1, 64), 64, 256, 128);
}

#[test]
fn round_trip_between_min_and_min_plus_window() {
    round_trip(lcg_bytes(2, 90), 64, 256, 128);
}

#[test]
fn round_trip_with_discriminator_cuts() {
    // A small discriminator over random data forces hash-triggered cuts
    // well before the maximum size.
    round_trip(lcg_bytes(3, 2000), 64, 4096, 256);
}

#[test]
fn round_trip_with_max_size_cuts() {
    // A huge average gives a discriminator the hash rarely meets, so the
    // maximum size forces the cuts.
    round_trip(lcg_bytes(4, 1500), 64, 256, 1024 * 1024);
}

#[test]
fn chunk_bounds_hold() {
    let min: u64 = 64;
    let max: u64 = 4096;
    let data = lcg_bytes(5, 4000);
    let total = data.len() as u64;
    let mut cfg = make(data, min, max, 512);
    cfg.index.read().expect("index read failed");
    let chunks = cfg.index.getChunkData();
    assert!(!chunks.is_empty());
    let mut sum: u64 = 0;
    for (i, c) in chunks.iter().enumerate() {
        assert_eq!(c.start, sum);
        sum += c.size;
        assert!(c.size <= max);
        if i + 1 < chunks.len() {
            assert!(c.size >= min);
        }
    }
    assert_eq!(sum, total);
}

#[test]
fn discriminator_matches_formula() {
    assert_eq!(discriminator_from_avg(128), 96);
    assert_eq!(discriminator_from_avg(1024), 768);
    assert_eq!(discriminator_from_avg(16384), 12318);
    assert_eq!(discriminator_from_avg(64 * 1024), 49535);
    assert_eq!(discriminator_from_avg(256 * 1024), 202440);
    assert_eq!(discriminator_from_avg(1024 * 1024), 886711);
}

#[test]
fn example_scenario_two_hundred_kib() {
    // A 200 KB pseudo-random input with the default bounds gives a few
    // chunks whose sizes sum to the input length, and a second run over
    // the same input writes no new blob.
    let min: u64 = 16 * 1024;
    let avg: u64 = 64 * 1024;
    let max: u64 = 256 * 1024;
    let data = lcg_bytes(6, 200 * 1024);
    let mut cfg = make(data.clone(), min, max, avg);
    cfg.index.read().expect("index read failed");
    let chunks = cfg.index.getChunkData();
    assert!(
        (2..=4).contains(&chunks.len()),
        "expected 2 to 4 chunks, got {}",
        chunks.len()
    );
    let sum: u64 = chunks.iter().map(|c| c.size).sum();
    assert_eq!(sum, 200 * 1024);
    let first_new = cfg.store.stats.new_chunks_count;
    assert_eq!(first_new as usize, chunks.len());

    // Second run against the same store: everything is a dedup hit.
    let mut cfg2 = ChunkerConfig {
        index: InMemoryIndex::new(""),
        store: cfg.store,
        source: data,
        min_size: min,
        max_size: max,
        avg_size: avg,
    };
    cfg2.chunk();
    assert_eq!(cfg2.store.stats.new_chunks_count, first_new);
    assert_eq!(cfg2.store.stats.count, 2 * first_new);
}
