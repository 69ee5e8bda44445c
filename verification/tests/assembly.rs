//! Seed resolution, configuration checks and failure modes of assembly.

use desync_rs::assembler::{AssembleError, AssembleOps, AssemblerConfig};
use desync_rs::chunker::ChunkerConfig;
use desync_rs::index::{InMemoryIndex, Index, IndexError};
use desync_rs::store::{LocalStore, StoreError};

fn lcg_bytes(seed: u64, len: usize) -> Vec<u8> {
    let mut x: u64 = seed;
    let mut out = Vec::with_capacity(len);
    for _ in 0..len {
        x = x
            .wrapping_mul(6364136223846793005)
            .wrapping_add(1442695040888963407);
        out.push((x >> 56) as u8);
    }
    out
}

fn make(source: Vec<u8>, min: u64, max: u64, avg: u64) -> ChunkerConfig {
    let mut cfg = ChunkerConfig {
        index: InMemoryIndex::new(""),
        store: LocalStore::new("store", min, max, avg),
        source,
        min_size: min,
        max_size: max,
        avg_size: avg,
    };
    cfg.chunk();
    cfg
}

#[test]
fn seed_short_circuit_needs_no_store() {
    // The seed is the whole target, so every chunk resolves from it; the
    // store is empty, so any store fetch would fail the assembly.
    let data = lcg_bytes(7, 2000);
    let cfg = make(data.clone(), 64, 4096, 512);
    let mut a = AssemblerConfig {
        seed: Some(data.clone()),
        seed_index: Some(InMemoryIndex::from_bytes("", cfg.index.buf.clone())),
        store: LocalStore::new("empty", 64, 4096, 128),
        new_index: InMemoryIndex::from_bytes("", cfg.index.buf.clone()),
        output: Vec::new(),
    };
    a.assemble().expect("assembly from seed alone failed");
    assert_eq!(a.output, data);
}

#[test]
fn seed_and_store_mix() {
    // The seed carries an older version: the first half of the target.
    // Chunks shared with it come from the seed; the rest from the store.
    let old = lcg_bytes(8, 2000);
    let mut new = old.clone();
    new.extend_from_slice(&lcg_bytes(9, 2000));
    let old_cfg = make(old.clone(), 64, 1024, 1024);
    let new_cfg = make(new.clone(), 64, 1024, 1024);
    let mut a = AssemblerConfig {
        seed: Some(old),
        seed_index: Some(InMemoryIndex::from_bytes("", old_cfg.index.buf.clone())),
        store: new_cfg.store,
        new_index: InMemoryIndex::from_bytes("", new_cfg.index.buf.clone()),
        output: Vec::new(),
    };
    a.assemble().expect("assembly failed");
    assert_eq!(a.output, new);
}

#[test]
fn seed_without_index_is_a_config_error() {
    let data = lcg_bytes(10, 500);
    let cfg = make(data.clone(), 64, 256, 128);
    let mut a = AssemblerConfig {
        seed: Some(data),
        seed_index: None,
        store: cfg.store,
        new_index: InMemoryIndex::from_bytes("", cfg.index.buf.clone()),
        output: Vec::new(),
    };
    assert_eq!(a.assemble(), Err(AssembleError::Config));
}

#[test]
fn seed_index_without_seed_is_a_config_error() {
    let data = lcg_bytes(11, 500);
    let cfg = make(data, 64, 256, 128);
    let mut a = AssemblerConfig {
        seed: None,
        seed_index: Some(InMemoryIndex::from_bytes("", cfg.index.buf.clone())),
        store: cfg.store,
        new_index: InMemoryIndex::from_bytes("", cfg.index.buf.clone()),
        output: Vec::new(),
    };
    assert_eq!(a.assemble(), Err(AssembleError::Config));
}

#[test]
fn store_miss_is_fatal() {
    let data = lcg_bytes(12, 500);
    let cfg = make(data, 64, 256, 128);
    let mut a = AssemblerConfig {
        seed: None,
        seed_index: None,
        store: LocalStore::new("empty", 64, 256, 128),
        new_index: InMemoryIndex::from_bytes("", cfg.index.buf.clone()),
        output: Vec::new(),
    };
    assert_eq!(
        a.assemble(),
        Err(AssembleError::Store(StoreError::NotFound))
    );
}

#[test]
fn bad_target_index_is_a_format_error() {
    let mut a = AssemblerConfig {
        seed: None,
        seed_index: None,
        store: LocalStore::new("empty", 64, 256, 128),
        new_index: InMemoryIndex::from_bytes("", vec![0u8; 128]),
        output: Vec::new(),
    };
    assert_eq!(
        a.assemble(),
        Err(AssembleError::Format(IndexError::NotAnIndex))
    );
}

#[test]
fn seed_range_outside_seed_is_fatal() {
    // The seed index describes more bytes than the seed file holds.
    let data = lcg_bytes(13, 500);
    let cfg = make(data.clone(), 64, 256, 128);
    let mut short_seed = data.clone();
    short_seed.truncate(10);
    let mut a = AssemblerConfig {
        seed: Some(short_seed),
        seed_index: Some(InMemoryIndex::from_bytes("", cfg.index.buf.clone())),
        store: LocalStore::new("empty", 64, 256, 128),
        new_index: InMemoryIndex::from_bytes("", cfg.index.buf.clone()),
        output: Vec::new(),
    };
    assert_eq!(a.assemble(), Err(AssembleError::SeedRange));
}
