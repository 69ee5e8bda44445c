//! The binary index layout: exact bytes, round trip, and format errors.

use desync_rs::index::{InMemoryIndex, Index, IndexError};

fn le(x: u64) -> [u8; 8] {
    x.to_le_bytes()
}

fn sample_index(offsets: &[u64]) -> InMemoryIndex {
    let mut idx = InMemoryIndex::new("");
    idx.write_header(64, 256, 128);
    for (k, off) in offsets.iter().enumerate() {
        idx.add_entry(*off, [k as u8; 32]);
    }
    idx.write_tail();
    idx
}

#[test]
fn header_layout_is_exact() {
    let idx = sample_index(&[]);
    let b = &idx.buf;
    assert_eq!(b.len(), 64 + 40);
    assert_eq!(&b[0..8], &le(48));
    assert_eq!(&b[8..16], &le(0x96824d9c7b129ff9));
    assert_eq!(&b[16..24], &le(0xa000000000000000));
    assert_eq!(&b[24..32], &le(64));
    assert_eq!(&b[32..40], &le(128));
    assert_eq!(&b[40..48], &le(256));
    assert_eq!(&b[48..56], &le(u64::MAX));
    assert_eq!(&b[56..64], &le(0xe75b9e112f17417d));
    // Tail: terminator, zero marker, header size, table byte size, magic.
    assert_eq!(&b[64..72], &le(0));
    assert_eq!(&b[72..80], &le(0));
    assert_eq!(&b[80..88], &le(48));
    assert_eq!(&b[88..96], &le(56));
    assert_eq!(&b[96..104], &le(0x4b4f050e5549ecd1));
}

#[test]
fn entry_layout_is_exact() {
    let idx = sample_index(&[100, 250]);
    let b = &idx.buf;
    assert_eq!(b.len(), 64 + 2 * 40 + 40);
    assert_eq!(&b[64..72], &le(100));
    assert_eq!(&b[72..104], &[0u8; 32]);
    assert_eq!(&b[104..112], &le(250));
    assert_eq!(&b[112..144], &[1u8; 32]);
    // The tail's table size field counts the table header pair and the
    // records, plus the final forty bytes.
    assert_eq!(&b[144..152], &le(0));
    assert_eq!(&b[168..176], &le(16 + 80 + 40));
    assert_eq!(&b[176..184], &le(0x4b4f050e5549ecd1));
}

#[test]
fn index_round_trip_recovers_chunks() {
    let mut idx = sample_index(&[100, 250, 250, 999]);
    idx.read().expect("read failed");
    let chunks = idx.getChunkData();
    assert_eq!(chunks.len(), 4);
    let starts: Vec<u64> = chunks.iter().map(|c| c.start).collect();
    let sizes: Vec<u64> = chunks.iter().map(|c| c.size).collect();
    assert_eq!(starts, vec![0, 100, 250, 250]);
    assert_eq!(sizes, vec![100, 150, 0, 749]);
    for (k, c) in chunks.iter().enumerate() {
        assert_eq!(c.id, [k as u8; 32]);
    }
}

#[test]
fn empty_index_round_trips() {
    let mut idx = sample_index(&[]);
    idx.read().expect("read failed");
    assert_eq!(idx.getChunkData().len(), 0);
}

#[test]
fn trailing_bytes_are_ignored() {
    let mut idx = sample_index(&[100]);
    idx.buf.extend_from_slice(&[0xab; 7]);
    idx.read().expect("read failed");
    assert_eq!(idx.getChunkData().len(), 1);
}

#[test]
fn not_an_index_is_rejected() {
    let mut idx = sample_index(&[100]);
    idx.buf[8] ^= 1;
    assert_eq!(idx.read(), Err(IndexError::NotAnIndex));
}

#[test]
fn unsupported_flags_are_rejected() {
    let mut idx = sample_index(&[100]);
    // Clear the SHA-512/256 feature bit.
    idx.buf[23] &= !0x20;
    assert_eq!(idx.read(), Err(IndexError::UnsupportedFlags));
}

#[test]
fn bad_table_size_sentinel_is_rejected() {
    let mut idx = sample_index(&[100]);
    idx.buf[48] = 0;
    assert_eq!(idx.read(), Err(IndexError::InvalidTableSize));
}

#[test]
fn bad_table_magic_is_rejected() {
    let mut idx = sample_index(&[100]);
    idx.buf[56] ^= 1;
    assert_eq!(idx.read(), Err(IndexError::InvalidTableMagic));
}

#[test]
fn bad_tail_marker_is_rejected() {
    let mut idx = sample_index(&[100]);
    let n = idx.buf.len();
    // The tail magic is the last eight bytes.
    idx.buf[n - 8] ^= 1;
    assert_eq!(idx.read(), Err(IndexError::MissingTailMarker));
}

#[test]
fn truncated_index_is_rejected() {
    let mut idx = sample_index(&[100]);
    idx.buf.truncate(70);
    assert_eq!(idx.read(), Err(IndexError::Truncated));
    let mut short = InMemoryIndex::from_bytes("", vec![1, 2, 3]);
    assert_eq!(short.read(), Err(IndexError::Truncated));
}

#[test]
fn decreasing_offsets_are_rejected() {
    let mut idx = sample_index(&[200, 100]);
    assert_eq!(idx.read(), Err(IndexError::InvalidOffsets));
}
