//! Rolling-hash equivalence and hexadecimal rendering.

use desync_rs::buzhash::{rotl, table_lookup, RollingHasher, HASH_TABLE, WINDOW_SIZE};
use desync_rs::chunker::hash;
use desync_rs::utils::bytes_to_hex;

fn lcg_bytes(seed: u64, len: usize) -> Vec<u8> {
    let mut x: u64 = seed;
    let mut out = Vec::with_capacity(len);
    for _ in 0..len {
        x = x
            .wrapping_mul(6364136223846793005)
            .wrapping_add(1442695040888963407);
        out.push((x >> 56) as u8);
    }
    out
}

#[test]
fn rolling_hash_equals_from_scratch() {
    // Slide the incremental hasher over a random stream and compare, at
    // every position, against the from-scratch hash of the same window.
    let stream = lcg_bytes(20, 400);
    let window: Vec<u8> = stream[..WINDOW_SIZE].to_vec();
    let mut rh = RollingHasher::new(window);
    assert_eq!(rh.hash, hash(&stream[..WINDOW_SIZE].to_vec()));
    for p in WINDOW_SIZE..stream.len() {
        rh.roll(stream[p]);
        let from_scratch = hash(&stream[p + 1 - WINDOW_SIZE..=p].to_vec());
        assert_eq!(rh.hash, from_scratch, "divergence at position {}", p);
    }
}

#[test]
fn from_scratch_formula_is_the_documented_one() {
    // The hash of a window XORs, for each byte, its table entry rotated
    // left by the number of bytes that follow it.
    let w = lcg_bytes(21, WINDOW_SIZE);
    let mut expected: u32 = 0;
    for (i, b) in w.iter().enumerate() {
        expected ^= HASH_TABLE[*b as usize].rotate_left((WINDOW_SIZE - i - 1) as u32);
    }
    assert_eq!(hash(&w), expected);
}

#[test]
fn rotl_matches_rotate_left() {
    for &x in &[0u32, 1, 0xdeadbeef, u32::MAX] {
        for n in 0u32..70 {
            assert_eq!(rotl(x, n), x.rotate_left(n));
        }
    }
}

#[test]
fn table_lookup_reads_the_table() {
    assert_eq!(table_lookup(0), 0x458be752);
    assert_eq!(table_lookup(255), 0xd95ddf11);
    for b in 0..=255u8 {
        assert_eq!(table_lookup(b), HASH_TABLE[b as usize]);
    }
}

#[test]
fn hex_rendering_is_unpadded() {
    assert_eq!(bytes_to_hex(Vec::new()), "");
    assert_eq!(bytes_to_hex(vec![0x00]), "0");
    assert_eq!(bytes_to_hex(vec![0x0f]), "f");
    assert_eq!(bytes_to_hex(vec![0xb5]), "b5");
    assert_eq!(bytes_to_hex(vec![0x01, 0xa0, 0x10, 0xff]), "1a010ff");
}
