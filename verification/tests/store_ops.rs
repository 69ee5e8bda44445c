//! Deduplication, retrieval and counters of the content-addressed store.

use desync_rs::store::{LocalStore, Store, StoreError, StoreStats};

#[test]
fn write_then_read_returns_the_bytes() {
    let mut store = LocalStore::new("store", 64, 256, 128);
    let payload: Vec<u8> = (0..200u16).map(|i| (i % 251) as u8).collect();
    let id = store.write_item(payload.clone());
    let back = store.read_item(id.to_vec()).expect("read failed");
    assert_eq!(back, payload);
}

#[test]
fn compressed_blobs_differ_from_their_bytes() {
    // A long run of one byte compresses well; if the compressor handed
    // its input back unchanged, the blob would be as long as the chunk.
    let mut store = LocalStore::new("store", 64, 256, 128);
    let payload = vec![7u8; 4096];
    store.write_item(payload.clone());
    assert_eq!(store.entries.len(), 1);
    assert!(store.entries[0].data.len() < payload.len());
}

#[test]
fn distinct_contents_get_distinct_ids() {
    let mut store = LocalStore::new("store", 64, 256, 128);
    let a = store.write_item(vec![1, 2, 3]);
    let b = store.write_item(vec![1, 2, 4]);
    assert_ne!(a, b);
    // The digest is not the input itself.
    let c = store.write_item(vec![9u8; 32]);
    assert_ne!(c, [9u8; 32]);
}

#[test]
fn dedup_same_bytes_twice() {
    let mut store = LocalStore::new("store", 64, 256, 128);
    let payload = vec![5u8; 100];
    let first = store.write_item(payload.clone());
    assert_eq!(store.stats.count, 1);
    assert_eq!(store.stats.new_chunks_count, 1);
    assert_eq!(store.stats.processed_bytes, 100);
    let second = store.write_item(payload);
    assert_eq!(first, second);
    assert_eq!(store.stats.count, 2);
    assert_eq!(store.stats.new_chunks_count, 1);
    assert_eq!(store.stats.processed_bytes, 200);
    assert_eq!(store.entries.len(), 1);
}

#[test]
fn missing_chunk_is_not_found() {
    let mut store = LocalStore::new("store", 64, 256, 128);
    store.write_item(vec![1, 2, 3]);
    assert_eq!(store.read_item(vec![0u8; 32]), Err(StoreError::NotFound));
    assert_eq!(store.read_item(vec![1, 2, 3]), Err(StoreError::NotFound));
}

#[test]
fn stats_counters_accumulate() {
    let mut stats = StoreStats::new(64, 256, 128);
    stats.add_item(10);
    stats.add_new_item(20);
    assert_eq!(stats.count, 2);
    assert_eq!(stats.processed_bytes, 30);
    assert_eq!(stats.new_chunks_count, 1);
    assert_eq!(stats.min_size, 64);
    assert_eq!(stats.max_size, 256);
    assert_eq!(stats.avg_size, 128);
}

#[test]
fn create_joins_the_store_path() {
    let store = LocalStore::new("blobs.castr", 64, 256, 128);
    assert_eq!(store.create("ab12"), "blobs.castr/ab12");
    assert_eq!(store.create(""), "blobs.castr");
}
