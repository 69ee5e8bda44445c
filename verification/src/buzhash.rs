use vstd::prelude::*;

verus! {

/// Number of bytes in the rolling-hash window.
pub const WINDOW_SIZE: usize = 48;

/// Fixed pseudorandom table mapping each byte value to a 32-bit word;
/// the rolling hash is a XOR of rotated table entries.
pub const HASH_TABLE: [u32; 256] = [
    0x458be752, 0xc10748cc, 0xfbbcdbb8, 0x6ded5b68,
    0xb10a82b5, 0x20d75648, 0xdfc5665f, 0xa8428801,
    0x7ebf5191, 0x841135c7, 0x65cc53b3, 0x280a597c,
    0x16f60255, 0xc78cbc3e, 0x294415f5, 0xb938d494,
    0xec85c4e6, 0xb7d33edc, 0xe549b544, 0xfdeda5aa,
    0x882bf287, 0x3116737c, 0x05569956, 0xe8cc1f68,
    0x0806ac5e, 0x22a14443, 0x15297e10, 0x50d090e7,
    0x4ba60f6f, 0xefd9f1a7, 0x5c5c885c, 0x82482f93,
    0x9bfd7c64, 0x0b3e7276, 0xf2688e77, 0x8fad8abc,
    0xb0509568, 0xf1ada29f, 0xa53efdfe, 0xcb2b1d00,
    0xf2a9e986, 0x6463432b, 0x95094051, 0x5a223ad2,
    0x9be8401b, 0x61e579cb, 0x1a556a14, 0x5840fdc2,
    0x9261ddf6, 0xcde002bb, 0x52432bb0, 0xbf17373e,
    0x7b7c222f, 0x2955ed16, 0x9f10ca59, 0xe840c4c9,
    0xccabd806, 0x14543f34, 0x1462417a, 0x0d4a1f9c,
    0x087ed925, 0xd7f8f24c, 0x7338c425, 0xcf86c8f5,
    0xb19165cd, 0x9891c393, 0x325384ac, 0x0308459d,
    0x86141d7e, 0xc922116a, 0xe2ffa6b6, 0x53f52aed,
    0x2cd86197, 0xf5b9f498, 0xbf319c8f, 0xe0411fae,
    0x977eb18c, 0xd8770976, 0x9833466a, 0xc674df7f,
    0x8c297d45, 0x8ca48d26, 0xc49ed8e2, 0x7344f874,
    0x556f79c7, 0x6b25eaed, 0xa03e2b42, 0xf68f66a4,
    0x8e8b09a2, 0xf2e0e62a, 0x0d3a9806, 0x9729e493,
    0x8c72b0fc, 0x160b94f6, 0x450e4d3d, 0x7a320e85,
    0xbef8f0e1, 0x21d73653, 0x4e3d977a, 0x1e7b3929,
    0x1cc6c719, 0xbe478d53, 0x8d752809, 0xe6d8c2c6,
    0x275f0892, 0xc8acc273, 0x4cc21580, 0xecc4a617,
    0xf5f7be70, 0xe795248a, 0x375a2fe9, 0x425570b6,
    0x8898dcf8, 0xdc2d97c4, 0x0106114b, 0x364dc22f,
    0x1e0cad1f, 0xbe63803c, 0x5f69fac2, 0x4d5afa6f,
    0x1bc0dfb5, 0xfb273589, 0x0ea47f7b, 0x3c1c2b50,
    0x21b2a932, 0x6b1223fd, 0x2fe706a8, 0xf9bd6ce2,
    0xa268e64e, 0xe987f486, 0x3eacf563, 0x1ca2018c,
    0x65e18228, 0x2207360a, 0x57cf1715, 0x34c37d2b,
    0x1f8f3cde, 0x93b657cf, 0x31a019fd, 0xe69eb729,
    0x8bca7b9b, 0x4c9d5bed, 0x277ebeaf, 0xe0d8f8ae,
    0xd150821c, 0x31381871, 0xafc3f1b0, 0x927db328,
    0xe95effac, 0x305a47bd, 0x426ba35b, 0x1233af3f,
    0x686a5b83, 0x50e072e5, 0xd9d3bb2a, 0x8befc475,
    0x487f0de6, 0xc88dff89, 0xbd664d5e, 0x971b5d18,
    0x63b14847, 0xd7d3c1ce, 0x7f583cf3, 0x72cbcb09,
    0xc0d0a81c, 0x7fa3429b, 0xe9158a1b, 0x225ea19a,
    0xd8ca9ea3, 0xc763b282, 0xbb0c6341, 0x020b8293,
    0xd4cd299d, 0x58cfa7f8, 0x91b4ee53, 0x37e4d140,
    0x95ec764c, 0x30f76b06, 0x5ee68d24, 0x679c8661,
    0xa41979c2, 0xf2b61284, 0x4fac1475, 0x0adb49f9,
    0x19727a23, 0x15a7e374, 0xc43a18d5, 0x3fb1aa73,
    0x342fc615, 0x924c0793, 0xbee2d7f0, 0x8a279de9,
    0x4aa2d70c, 0xe24dd37f, 0xbe862c0b, 0x177c22c2,
    0x5388e5ee, 0xcd8a7510, 0xf901b4fd, 0xdbc13dbc,
    0x6c0bae5b, 0x64efe8c7, 0x48b02079, 0x80331a49,
    0xca3d8ae6, 0xf3546190, 0xfed7108b, 0xc49b941b,
    0x32baf4a9, 0xeb833a4a, 0x88a3f1a5, 0x3a91ce0a,
    0x3cc27da1, 0x7112e684, 0x4a3096b1, 0x3794574c,
    0xa3c8b6f3, 0x1d213941, 0x6e0a2e00, 0x233479f1,
    0x0f4cd82f, 0x6093edd2, 0x5d7d209e, 0x464fe319,
    0xd4dcac9e, 0x0db845cb, 0xfb5e4bc3, 0xe0256ce1,
    0x09fb4ed1, 0x0914be1e, 0xa5bdb2c3, 0xc6eb57bb,
    0x30320350, 0x3f397e91, 0xa67791bc, 0x86bc0e2c,
    0xefa0a7e2, 0xe9ff7543, 0xe733612c, 0xd185897b,
    0x329e5388, 0x91dd236b, 0x2ecb0d93, 0xf4d82a3d,
    0x35b5c03f, 0xe4e606f0, 0x05b21843, 0x37b45964,
    0x5eff22f4, 0x6027f4cc, 0x77178b3c, 0xae507131,
    0x7bf7cabc, 0xf9c18d66, 0x593ade65, 0xd95ddf11,
];

/// Table entry for a byte, as seen by specifications.
pub open spec fn table_at(b: u8) -> u32 {
    HASH_TABLE@[b as int]
}

/// Left rotation of a 32-bit word by `s` positions, for `s < 32`.
pub open spec fn rotl_small(x: u32, s: u32) -> u32
    recommends
        s < 32,
{
    if s == 0 {
        x
    } else {
        (x << s) | (x >> ((32 - s) as u32))
    }
}

/// Left rotation of a 32-bit word by any number of positions.
pub open spec fn rotl32(x: u32, n: nat) -> u32 {
    rotl_small(x, (n % 32) as u32)
}

/// Executable left rotation, equal to the specification `rotl32`.
pub fn rotl(x: u32, n: u32) -> (r: u32)
    ensures
        r == rotl32(x, n as nat),
{
    let s: u32 = n % 32;
    if s == 0 {
        x
    } else {
        (x << s) | (x >> (32 - s))
    }
}

/// Table lookup in executable code.
pub fn table_lookup(b: u8) -> (r: u32)
    ensures
        r == table_at(b),
{
    HASH_TABLE[b as usize]
}

/// Hash of a window of bytes, stated recursively: appending a byte
/// rotates the previous hash left once and XORs in the byte's table entry.
pub open spec fn window_hash(w: Seq<u8>) -> u32
    decreases w.len(),
{
    if w.len() == 0 {
        0
    } else {
        rotl32(window_hash(w.drop_last()), 1) ^ table_at(w.last())
    }
}

/// Partial sum of the from-scratch formula: XOR, over the first `k` window
/// positions `i`, of the byte's table entry rotated left by `w.len() - i - 1`.
pub open spec fn full_hash_prefix(w: Seq<u8>, k: int) -> u32
    decreases k,
{
    if k <= 0 {
        0
    } else {
        full_hash_prefix(w, k - 1) ^ rotl32(table_at(w[k - 1]), (w.len() - k) as nat)
    }
}

/// The from-scratch hash formula over a whole window.
pub open spec fn full_window_hash(w: Seq<u8>) -> u32 {
    full_hash_prefix(w, w.len() as int)
}

proof fn lemma_rotl_zero(x: u32)
    ensures
        rotl32(x, 0) == x,
{
}

proof fn lemma_xor_zero(x: u32)
    ensures
        0u32 ^ x == x,
        x ^ 0u32 == x,
{
    assert(0u32 ^ x == x && x ^ 0u32 == x) by (bit_vector);
}

proof fn lemma_rotl_of_zero(n: nat)
    ensures
        rotl32(0u32, n) == 0u32,
{
    assert(0u32 ^ 0u32 == 0u32) by (bit_vector);
    lemma_rotl_distributes(0u32, 0u32, n);
    let y = rotl32(0u32, n);
    assert(y ^ y == 0u32) by (bit_vector);
}

proof fn lemma_xor_assoc(a: u32, b: u32, c: u32)
    ensures
        (a ^ b) ^ c == a ^ (b ^ c),
{
    assert((a ^ b) ^ c == a ^ (b ^ c)) by (bit_vector);
}

proof fn lemma_rotl_distributes(x: u32, y: u32, n: nat)
    ensures
        rotl32(x ^ y, n) == rotl32(x, n) ^ rotl32(y, n),
{
    let s = (n % 32) as u32;
    if s == 0 {
    } else {
        let t = (32 - s) as u32;
        assert(((x ^ y) << s) | ((x ^ y) >> t) == (((x << s) | (x >> t)) ^ ((y << s) | (y
            >> t)))) by (bit_vector)
            requires
                0 < s < 32,
                t == 32 - s,
        ;
    }
}

#[verifier::rlimit(50)]
proof fn lemma_rotl_compose(x: u32, a: nat, b: nat)
    ensures
        rotl32(rotl32(x, a), b) == rotl32(x, a + b),
{
    let s = (a % 32) as u32;
    let t = (b % 32) as u32;
    let u = ((a + b) % 32) as u32;
    vstd::arithmetic::div_mod::lemma_add_mod_noop(a as int, b as int, 32);
    assert(u == (s + t) % 32);
    if s == 0 {
        assert(u == t);
    } else if t == 0 {
        assert(u == s);
    } else {
        let s2 = (32 - s) as u32;
        let t2 = (32 - t) as u32;
        let y = rotl_small(x, s);
        assert(y == (x << s) | (x >> s2));
        if u == 0 {
            assert((y << t) | (y >> t2) == x) by (bit_vector)
                requires
                    0 < s < 32,
                    0 < t < 32,
                    s + t == 32,
                    s2 == 32 - s,
                    t2 == 32 - t,
                    y == (x << s) | (x >> s2),
            ;
        } else {
            let u2 = (32 - u) as u32;
            if s + t < 32 {
                assert((y << t) | (y >> t2) == (x << u) | (x >> u2)) by (bit_vector)
                    requires
                        0 < s < 32,
                        0 < t < 32,
                        0 < u < 32,
                        u == s + t,
                        s2 == 32 - s,
                        t2 == 32 - t,
                        u2 == 32 - u,
                        y == (x << s) | (x >> s2),
                ;
            } else {
                assert((y << t) | (y >> t2) == (x << u) | (x >> u2)) by (bit_vector)
                    requires
                        0 < s < 32,
                        0 < t < 32,
                        0 < u < 32,
                        u + 32 == s + t,
                        s2 == 32 - s,
                        t2 == 32 - t,
                        u2 == 32 - u,
                        y == (x << s) | (x >> s2),
                ;
            }
        }
    }
}

/// Splitting the recursive hash at the front: the oldest byte contributes
/// its table entry rotated by the number of bytes that follow it.
proof fn lemma_window_hash_drop_first(w: Seq<u8>)
    requires
        w.len() >= 1,
    ensures
        window_hash(w) == rotl32(table_at(w[0]), (w.len() - 1) as nat) ^ window_hash(
            w.drop_first(),
        ),
    decreases w.len(),
{
    let t0 = table_at(w[0]);
    if w.len() == 1 {
        assert(w.drop_last() =~= Seq::<u8>::empty());
        assert(w.drop_first() =~= Seq::<u8>::empty());
        lemma_rotl_of_zero(1);
        lemma_xor_zero(t0);
        lemma_rotl_zero(t0);
        assert(w.last() == w[0]);
    } else {
        let n = w.len() as int;
        let wdl = w.drop_last();
        lemma_window_hash_drop_first(wdl);
        // window_hash(wdl) == rotl32(t0, n - 2) ^ window_hash(wdl.drop_first())
        lemma_rotl_distributes(rotl32(t0, (n - 2) as nat), window_hash(wdl.drop_first()), 1);
        lemma_rotl_compose(t0, (n - 2) as nat, 1);
        assert(wdl.drop_first() =~= w.drop_first().drop_last());
        // window_hash(w) == rotl32(window_hash(wdl), 1) ^ table_at(w.last())
        //               == (rotl32(t0, n - 1) ^ rotl32(window_hash(w.drop_first().drop_last()), 1))
        //                  ^ table_at(w.last())
        lemma_xor_assoc(
            rotl32(t0, (n - 1) as nat),
            rotl32(window_hash(w.drop_first().drop_last()), 1),
            table_at(w.last()),
        );
        assert(w.drop_first().last() == w.last());
        assert(w.drop_first().len() >= 1);
    }
}

proof fn lemma_full_hash_prefix_drop_last(w: Seq<u8>, k: int)
    requires
        0 <= k < w.len(),
    ensures
        full_hash_prefix(w, k) == rotl32(full_hash_prefix(w.drop_last(), k), 1),
    decreases k,
{
    if k <= 0 {
        lemma_rotl_of_zero(1);
    } else {
        let n = w.len() as int;
        lemma_full_hash_prefix_drop_last(w, k - 1);
        lemma_rotl_compose(table_at(w[k - 1]), (n - k - 1) as nat, 1);
        lemma_rotl_distributes(
            full_hash_prefix(w.drop_last(), k - 1),
            rotl32(table_at(w[k - 1]), (n - k - 1) as nat),
            1,
        );
        assert(w.drop_last()[k - 1] == w[k - 1]);
    }
}

/// The recursive hash and the from-scratch formula agree on every window.
pub proof fn lemma_window_hash_equals_full(w: Seq<u8>)
    ensures
        window_hash(w) == full_window_hash(w),
    decreases w.len(),
{
    if w.len() == 0 {
    } else {
        let n = w.len() as int;
        lemma_window_hash_equals_full(w.drop_last());
        lemma_full_hash_prefix_drop_last(w, n - 1);
        lemma_rotl_zero(table_at(w[n - 1]));
        assert(w.last() == w[n - 1]);
    }
}

/// Incremental hasher over a fixed-size window of the most recent bytes.
///
/// The window is kept as a ring buffer: `idx` points at the oldest byte,
/// and the bytes in stream order are `window[idx..]` followed by
/// `window[..idx]`.  The invariant ties `hash` to the recursive
/// `window_hash` of that logical window, so every `roll` is proven equal
/// to recomputing the hash from scratch.
pub struct RollingHasher {
    pub window: Vec<u8>,
    pub idx: usize,
    pub hash: u32,
}

impl RollingHasher {
    /// The window bytes in stream order, oldest first.
    pub open spec fn window_seq(&self) -> Seq<u8> {
        self.window@.subrange(self.idx as int, WINDOW_SIZE as int) + self.window@.subrange(
            0,
            self.idx as int,
        )
    }

    pub open spec fn wf(&self) -> bool {
        &&& self.window@.len() == WINDOW_SIZE
        &&& self.idx < WINDOW_SIZE
    }

    pub open spec fn inv(&self) -> bool {
        &&& self.wf()
        &&& self.hash == window_hash(self.window_seq())
    }

    /// Start from a full window of bytes in stream order.
    pub fn new(window: Vec<u8>) -> (r: RollingHasher)
        requires
            window@.len() == WINDOW_SIZE,
        ensures
            r.inv(),
            r.window_seq() == window@,
    {
        let h = hash_window(&window);
        let r = RollingHasher { window, idx: 0, hash: h };
        proof {
            assert(r.window_seq() =~= r.window@);
        }
        r
    }

    /// Slide the window one byte: the oldest byte leaves, `b` enters,
    /// and the hash is updated incrementally.
    pub fn roll(&mut self, b: u8)
        requires
            old(self).inv(),
        ensures
            final(self).inv(),
            final(self).window_seq() == old(self).window_seq().drop_first().push(b),
            final(self).hash == window_hash(old(self).window_seq().drop_first().push(b)),
    {
        let ghost w = self.window_seq();
        let out = self.window[self.idx];
        proof {
            assert(w[0] == self.window@[self.idx as int]);
        }
        self.window.set(self.idx, b);
        self.idx = if self.idx + 1 == WINDOW_SIZE {
            0
        } else {
            self.idx + 1
        };
        let h1 = rotl(self.hash, 1);
        let h2 = rotl(table_lookup(out), WINDOW_SIZE as u32);
        self.hash = h1 ^ h2 ^ table_lookup(b);
        proof {
            assert(self.window_seq() =~= w.drop_first().push(b));
            lemma_hash_roll(w, b);
        }
    }
}

/// Hash of a full window computed from scratch, term by term: each byte's
/// table entry is rotated left by the number of bytes that follow it.
pub fn hash_window(window: &Vec<u8>) -> (r: u32)
    requires
        window@.len() == WINDOW_SIZE,
    ensures
        r == window_hash(window@),
{
    let mut h: u32 = 0;
    let mut i: usize = 0;
    while i < WINDOW_SIZE
        invariant
            window@.len() == WINDOW_SIZE,
            i <= WINDOW_SIZE,
            h == full_hash_prefix(window@, i as int),
        decreases WINDOW_SIZE - i,
    {
        let t = rotl(table_lookup(window[i]), (WINDOW_SIZE as u32) - (i as u32) - 1);
        h = h ^ t;
        i = i + 1;
    }
    proof {
        lemma_window_hash_equals_full(window@);
    }
    h
}

/// Sliding the window is an algebraic identity: dropping the oldest byte
/// and appending a new one changes the hash exactly as the incremental
/// update computes it.
pub proof fn lemma_hash_roll(w: Seq<u8>, b: u8)
    requires
        w.len() >= 1,
    ensures
        window_hash(w.drop_first().push(b)) == rotl32(window_hash(w), 1) ^ rotl32(
            table_at(w[0]),
            w.len() as nat,
        ) ^ table_at(b),
    decreases w.len(),
{
    let n = w.len() as int;
    let t0 = table_at(w[0]);
    let rest = w.drop_first();
    let w2 = rest.push(b);
    assert(w2.drop_last() =~= rest);
    assert(w2.last() == b);
    // window_hash(w2) == rotl32(window_hash(rest), 1) ^ table_at(b)
    lemma_window_hash_drop_first(w);
    // window_hash(w) == rotl32(t0, n - 1) ^ window_hash(rest)
    lemma_rotl_distributes(rotl32(t0, (n - 1) as nat), window_hash(rest), 1);
    lemma_rotl_compose(t0, (n - 1) as nat, 1);
    // rotl32(window_hash(w), 1) == rotl32(t0, n) ^ rotl32(window_hash(rest), 1)
    let a = rotl32(t0, n as nat);
    let h = rotl32(window_hash(rest), 1);
    let t = table_at(b);
    assert((a ^ h) ^ a == h) by (bit_vector);
    assert(((a ^ h) ^ a) ^ t == (a ^ h) ^ (a ^ t)) by (bit_vector);
    assert(rotl32(window_hash(w), 1) == a ^ h);
    assert(h ^ t == (a ^ h) ^ a ^ t);
}

/// Rolling-hash equivalence, in from-scratch terms: applying the
/// incremental update to the from-scratch hash of a window gives the
/// from-scratch hash of the window slid by one byte.
pub proof fn lemma_roll_matches_full(w: Seq<u8>, b: u8)
    requires
        w.len() >= 1,
    ensures
        full_window_hash(w.drop_first().push(b)) == rotl32(full_window_hash(w), 1) ^ rotl32(
            table_at(w[0]),
            w.len() as nat,
        ) ^ table_at(b),
{
    lemma_window_hash_equals_full(w);
    lemma_window_hash_equals_full(w.drop_first().push(b));
    lemma_hash_roll(w, b);
}

} // verus!