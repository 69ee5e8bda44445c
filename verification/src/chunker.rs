//! Content-defined chunking: a rolling hash over a 48-byte window decides
//! where a stream is cut, subject to minimum and maximum chunk sizes, and
//! each chunk is written to the store and recorded in the index.

use vstd::prelude::*;

verus! {

use crate::buzhash::{window_hash, hash_window, RollingHasher, WINDOW_SIZE};
use crate::index::{InMemoryIndex, Index, IndexEntry, ChunkRec, entries_to_chunks};
use crate::store::{LocalStore, Store, sha512_256_of};

pub const CHUNK_SIZE_AVG_DEFAULT: u64 = 64 * 1024;

pub const CHUNK_SIZE_MIN_DEFAULT: u64 = CHUNK_SIZE_AVG_DEFAULT / 4;

pub const CHUNK_SIZE_MAX_DEFAULT: u64 = CHUNK_SIZE_AVG_DEFAULT * 4;

/// The discriminator formula divides the average size by
/// `1.33237515 - 1.42888852e-7 * avg`; this is that denominator scaled by
/// `10^15` so that the computation is exact.
pub open spec fn discriminator_denominator(avg: u64) -> int {
    1332375150000000 - 142888852 * avg
}

/// Average sizes for which the calibration denominator is positive; for
/// larger values the formula has no meaning.
pub open spec fn valid_avg(avg: u64) -> bool {
    1 <= avg && discriminator_denominator(avg) > 0
}

/// The discriminator tuned to an average chunk size: the average divided
/// by the calibration denominator, floored, saturated to `u32`.
pub open spec fn discriminator_of(avg: u64) -> u32 {
    let q = avg * 1000000000000000 / discriminator_denominator(avg);
    if q > u32::MAX {
        u32::MAX
    } else {
        q as u32
    }
}

/// Compute the discriminator from the average chunk size.
pub fn discriminator_from_avg(avg: u64) -> (r: u32)
    requires
        valid_avg(avg),
    ensures
        r == discriminator_of(avg),
{
    let num: u128 = (avg as u128) * 1000000000000000;
    let den: u128 = 1332375150000000 - (avg as u128) * 142888852;
    let q: u128 = num / den;
    if q > u32::MAX as u128 {
        u32::MAX
    } else {
        q as u32
    }
}

/// The window of bytes whose newest byte is at position `p`.
pub open spec fn window_at(data: Seq<u8>, p: int) -> Seq<u8> {
    data.subrange(p - 47, p + 1)
}

/// The rolling hash after the byte at position `p` entered the window.
pub open spec fn hash_at(data: Seq<u8>, p: int) -> u32 {
    window_hash(window_at(data, p))
}

/// Whether consuming the byte at `p` cuts the chunk that began at `start`:
/// either the chunk has reached the maximum size, or the rolling hash
/// meets the discriminator condition.
pub open spec fn cuts_at(data: Seq<u8>, start: int, max: u64, disc: u32, p: int) -> bool {
    ||| p + 1 - start >= max
    ||| hash_at(data, p) % disc == disc - 1
}

/// The end of the chunk that began at `start`, scanning from position `p`:
/// one past the first byte that cuts, or the end of the stream.
pub open spec fn next_cut_from(data: Seq<u8>, start: int, max: u64, disc: u32, p: int) -> int
    decreases data.len() - p,
{
    if p >= data.len() {
        data.len() as int
    } else if cuts_at(data, start, max, disc, p) {
        p + 1
    } else {
        next_cut_from(data, start, max, disc, p + 1)
    }
}

/// The end of the chunk that begins at `start`: the whole remainder when
/// it is no longer than the minimum, otherwise the first cut at or after
/// `min` more bytes.
pub open spec fn next_cut(data: Seq<u8>, start: int, min: u64, max: u64, disc: u32) -> int {
    if data.len() - start <= min {
        data.len() as int
    } else {
        next_cut_from(data, start, max, disc, start + min)
    }
}

/// The scan can only move the cut forward, and never past the end.
pub proof fn lemma_next_cut_from_bounds(data: Seq<u8>, start: int, max: u64, disc: u32, p: int)
    requires
        0 <= p <= data.len(),
    ensures
        p <= next_cut_from(data, start, max, disc, p) <= data.len(),
        p < data.len() ==> p < next_cut_from(data, start, max, disc, p),
    decreases data.len() - p,
{
    if p >= data.len() {
    } else if cuts_at(data, start, max, disc, p) {
    } else {
        lemma_next_cut_from_bounds(data, start, max, disc, p + 1);
    }
}

/// Each chunk ends after its start and not past the end of the stream.
pub proof fn lemma_next_cut_bounds(data: Seq<u8>, start: int, min: u64, max: u64, disc: u32)
    requires
        0 <= start < data.len(),
        min >= 1,
    ensures
        start < next_cut(data, start, min, max, disc) <= data.len(),
{
    if data.len() - start <= min {
    } else {
        lemma_next_cut_from_bounds(data, start, max, disc, start + min as int);
    }
}

/// The ends of the chunks the stream is cut into, from `start` on; the
/// final end is always the stream length.
pub open spec fn chunk_ends(data: Seq<u8>, start: int, min: u64, max: u64, disc: u32) -> Seq<int>
    decreases data.len() - start
        when 0 <= start && min >= 1
        via chunk_ends_decreases
{
    if start >= data.len() {
        Seq::empty()
    } else {
        let e = next_cut(data, start, min, max, disc);
        seq![e] + chunk_ends(data, e, min, max, disc)
    }
}

#[via_fn]
proof fn chunk_ends_decreases(data: Seq<u8>, start: int, min: u64, max: u64, disc: u32) {
    if start < data.len() {
        lemma_next_cut_bounds(data, start, min, max, disc);
    }
}

/// Find the end of the chunk that begins at `start`: read the minimum
/// block, hash its last 48 bytes, then slide the window byte by byte until
/// the maximum size or the discriminator condition cuts, or the stream
/// ends.
fn next_boundary(data: &Vec<u8>, start: usize, min: u64, max: u64, disc: u32) -> (end: usize)
    requires
        start < data@.len(),
        48 <= min <= max,
        disc >= 1,
    ensures
        end == next_cut(data@, start as int, min, max, disc),
        start < end <= data@.len(),
{
    let n = data.len();
    if ((n - start) as u64) <= min {
        return n;
    }
    let m = min as usize;
    // The initial window: the last 48 bytes of the minimum block.
    let mut wvec: Vec<u8> = Vec::new();
    let mut i: usize = 0;
    while i < WINDOW_SIZE
        invariant
            i <= WINDOW_SIZE,
            start + m < n == data@.len(),
            WINDOW_SIZE <= m,
            wvec@.len() == i,
            forall|j: int| 0 <= j < i ==> wvec@[j] == data@[start + m - WINDOW_SIZE + j],
        decreases WINDOW_SIZE - i,
    {
        wvec.push(data[start + m - WINDOW_SIZE + i]);
        i = i + 1;
    }
    proof {
        assert(wvec@ =~= data@.subrange(
            start + m - WINDOW_SIZE,
            start + m as int,
        ));
        assert(wvec@ =~= window_at(data@, start + m - 1));
    }
    let mut rh = RollingHasher::new(wvec);
    let mut p: usize = start + m;
    while p < n
        invariant
            start + m <= p <= n,
            n == data@.len(),
            start + m < n,
            WINDOW_SIZE <= m == min,
            min <= max,
            disc >= 1,
            rh.inv(),
            rh.window_seq() == window_at(data@, p - 1),
            next_cut_from(data@, start as int, max, disc, start + m as int) == next_cut_from(
                data@,
                start as int,
                max,
                disc,
                p as int,
            ),
        decreases n - p,
    {
        let b = data[p];
        rh.roll(b);
        proof {
            assert(rh.window_seq() =~= window_at(data@, p as int));
        }
        let size = p + 1 - start;
        if (size as u64) >= max || rh.hash % disc == disc - 1 {
            proof {
                assert(cuts_at(data@, start as int, max, disc, p as int));
            }
            return p + 1;
        }
        proof {
            assert(!cuts_at(data@, start as int, max, disc, p as int));
        }
        p = p + 1;
    }
    proof {
        assert(next_cut_from(data@, start as int, max, disc, p as int) == data@.len());
    }
    n
}

/// Hash of one full window, computed from scratch.
pub fn hash(window: &Vec<u8>) -> (r: u32)
    requires
        window@.len() == WINDOW_SIZE,
    ensures
        r == window_hash(window@),
{
    hash_window(window)
}

/// Insert-if-absent: how one written chunk changes the store's contents.
pub open spec fn store_insert(m: Map<Seq<u8>, Seq<u8>>, bytes: Seq<u8>) -> Map<Seq<u8>, Seq<u8>> {
    if m.dom().contains(sha512_256_of(bytes)) {
        m
    } else {
        m.insert(sha512_256_of(bytes), bytes)
    }
}

/// The store contents after the chunks ending at `ends` are written in
/// order, the first beginning at `start`.
pub open spec fn store_after(
    m: Map<Seq<u8>, Seq<u8>>,
    data: Seq<u8>,
    start: int,
    ends: Seq<int>,
) -> Map<Seq<u8>, Seq<u8>>
    decreases ends.len(),
{
    if ends.len() == 0 {
        m
    } else {
        store_after(store_insert(m, data.subrange(start, ends[0])), data, ends[0], ends.drop_first())
    }
}

/// How many of those chunks were new to the store when written.
pub open spec fn store_news(m: Map<Seq<u8>, Seq<u8>>, data: Seq<u8>, start: int, ends: Seq<int>) -> int
    decreases ends.len(),
{
    if ends.len() == 0 {
        0
    } else {
        let c = data.subrange(start, ends[0]);
        (if m.dom().contains(sha512_256_of(c)) {
            0int
        } else {
            1int
        }) + store_news(store_insert(m, c), data, ends[0], ends.drop_first())
    }
}

/// The index records for those chunks: each chunk's cumulative end offset
/// and content id, in stream order.
pub open spec fn entries_for(data: Seq<u8>, start: int, ends: Seq<int>) -> Seq<IndexEntry>
    decreases ends.len(),
{
    if ends.len() == 0 {
        Seq::empty()
    } else {
        seq![
            IndexEntry { offset: ends[0] as u64, id: sha512_256_of(data.subrange(start, ends[0])) },
        ] + entries_for(data, ends[0], ends.drop_first())
    }
}

/// Between the minimum block and the maximum size, the scan cuts no later
/// than the maximum, and any cut before the end of the stream comes after
/// the position the scan started from.
proof fn lemma_next_cut_from_props(data: Seq<u8>, start: int, max: u64, disc: u32, p: int)
    requires
        0 <= start <= p <= data.len(),
        p <= start + max - 1,
    ensures
        ({
            let e = next_cut_from(data, start, max, disc, p);
            &&& p <= e <= data.len()
            &&& e <= start + max
            &&& (e < data.len() ==> p < e)
        }),
    decreases data.len() - p,
{
    if p >= data.len() {
    } else if cuts_at(data, start, max, disc, p) {
    } else {
        lemma_next_cut_from_props(data, start, max, disc, p + 1);
    }
}

/// Chunk bounds: every chunk is at most the maximum size, and every chunk
/// except the final one of the stream is strictly longer than the minimum.
/// This needs the minimum to lie strictly below the maximum: with the two
/// equal, the first byte read after the minimum block already exceeds it.
pub proof fn lemma_chunk_bounds(data: Seq<u8>, start: int, min: u64, max: u64, disc: u32)
    requires
        0 <= start <= data.len(),
        1 <= min < max,
    ensures
        ({
            let ends = chunk_ends(data, start, min, max, disc);
            forall|i: int|
                0 <= i < ends.len() ==> {
                    let s = if i == 0 {
                        start
                    } else {
                        ends[i - 1]
                    };
                    &&& s < #[trigger] ends[i] <= data.len()
                    &&& ends[i] - s <= max
                    &&& (ends[i] < data.len() ==> ends[i] - s > min)
                }
        }),
    decreases data.len() - start,
{
    let ends = chunk_ends(data, start, min, max, disc);
    if start >= data.len() {
    } else {
        let e0 = next_cut(data, start, min, max, disc);
        lemma_next_cut_bounds(data, start, min, max, disc);
        if data.len() - start <= min {
        } else {
            lemma_next_cut_from_props(data, start, max, disc, start + min as int);
        }
        lemma_chunk_bounds(data, e0, min, max, disc);
        let tail = chunk_ends(data, e0, min, max, disc);
        assert(ends == seq![e0] + tail);
        assert forall|i: int| 0 <= i < ends.len() implies {
            let s = if i == 0 {
                start
            } else {
                ends[i - 1]
            };
            &&& s < #[trigger] ends[i] <= data.len()
            &&& ends[i] - s <= max
            &&& (ends[i] < data.len() ==> ends[i] - s > min)
        } by {
            if i == 0 {
                assert(ends[0] == e0);
            } else {
                assert(ends[i] == tail[i - 1]);
                let s = if i - 1 == 0 {
                    e0
                } else {
                    tail[i - 2]
                };
                assert(s < tail[i - 1] <= data.len());
                if i == 1 {
                    assert(ends[i - 1] == e0);
                } else {
                    assert(ends[i - 1] == tail[i - 2]);
                }
            }
        }
    }
}

/// A binding already in the store survives any run of chunk writes:
/// deduplication never overwrites.
pub proof fn lemma_store_after_preserves(
    m: Map<Seq<u8>, Seq<u8>>,
    data: Seq<u8>,
    start: int,
    ends: Seq<int>,
    id: Seq<u8>,
)
    requires
        m.dom().contains(id),
    ensures
        store_after(m, data, start, ends).dom().contains(id),
        store_after(m, data, start, ends)[id] == m[id],
    decreases ends.len(),
{
    if ends.len() == 0 {
    } else {
        let c = data.subrange(start, ends[0]);
        let m1 = store_insert(m, c);
        assert(m1.dom().contains(id) && m1[id] == m[id]);
        lemma_store_after_preserves(m1, data, ends[0], ends.drop_first(), id);
    }
}

/// Deduplication is idempotent: writing the same bytes again finds the id
/// present and leaves the store as it was.
pub proof fn lemma_dedup_idempotent(m: Map<Seq<u8>, Seq<u8>>, bytes: Seq<u8>)
    ensures
        store_insert(m, bytes).dom().contains(sha512_256_of(bytes)),
        store_insert(store_insert(m, bytes), bytes) == store_insert(m, bytes),
{
}

/// Chunking the same stream into a store that already holds its chunks
/// writes no new blob: a second run of the same cut is free.
pub proof fn lemma_remake_writes_nothing(
    m: Map<Seq<u8>, Seq<u8>>,
    data: Seq<u8>,
    start: int,
    ends: Seq<int>,
)
    ensures
        store_news(store_after(m, data, start, ends), data, start, ends) == 0,
    decreases ends.len(),
{
    if ends.len() == 0 {
    } else {
        let c = data.subrange(start, ends[0]);
        let m1 = store_insert(m, c);
        let big = store_after(m, data, start, ends);
        assert(big == store_after(m1, data, ends[0], ends.drop_first()));
        lemma_store_after_preserves(m1, data, ends[0], ends.drop_first(), sha512_256_of(c));
        assert(big.dom().contains(sha512_256_of(c)));
        assert(store_insert(big, c) == big);
        lemma_remake_writes_nothing(m1, data, ends[0], ends.drop_first());
    }
}

/// There is one index record per chunk.
pub proof fn lemma_entries_for_len(data: Seq<u8>, start: int, ends: Seq<int>)
    ensures
        entries_for(data, start, ends).len() == ends.len(),
    decreases ends.len(),
{
    if ends.len() == 0 {
    } else {
        lemma_entries_for_len(data, ends[0], ends.drop_first());
    }
}

/// One chunking run: the source bytes, the index and store the chunks go
/// to, and the chunk-size bounds.
pub struct ChunkerConfig {
    pub index: InMemoryIndex,
    pub store: LocalStore,
    pub source: Vec<u8>,
    pub min_size: u64,
    pub max_size: u64,
    pub avg_size: u64,
}

impl ChunkerConfig {
    /// Bounds under which chunking is defined: the window must fit in the
    /// minimum block, and the average must give a positive discriminator.
    pub open spec fn valid_config(&self) -> bool {
        &&& 48 <= self.min_size < self.max_size
        &&& valid_avg(self.avg_size)
        &&& discriminator_of(self.avg_size) >= 1
    }

    /// The chunk ends this configuration produces.
    pub open spec fn ends(&self) -> Seq<int> {
        chunk_ends(
            self.source@,
            0,
            self.min_size,
            self.max_size,
            discriminator_of(self.avg_size),
        )
    }

    /// Chunk the whole source: write the index header, then each chunk to
    /// the store and its record to the index, then the index tail.  The
    /// index ends up holding exactly the encoding of the chunk table, the
    /// store holds every chunk under its id, and the counters advance by
    /// one count per chunk, one byte per source byte, and one new chunk
    /// per id the store did not yet hold.  The discriminator is computed
    /// from the configured average chunk size.  An empty source produces
    /// an index with no chunk records, and a source shorter than the
    /// minimum chunk size produces a single final chunk.
    pub fn chunk(&mut self)
        requires
            old(self).valid_config(),
            old(self).store.inv(),
            old(self).index.buf@.len() == 0,
            old(self).index.chunk_table_size == 0,
            old(self).store.stats_of().processed_bytes + old(self).source@.len() <= u64::MAX,
            old(self).store.stats_of().count + old(self).source@.len() < u64::MAX,
            old(self).store.stats_of().new_chunks_count + old(self).source@.len() < u64::MAX,
            96 + 40 * old(self).source@.len() <= u64::MAX,
        ensures
            final(self).store.inv(),
            final(self).source == old(self).source,
            final(self).min_size == old(self).min_size,
            final(self).max_size == old(self).max_size,
            final(self).avg_size == old(self).avg_size,
            final(self).index.buf@ == crate::index::encode_index(
                old(self).min_size,
                old(self).avg_size,
                old(self).max_size,
                entries_for(old(self).source@, 0, old(self).ends()),
            ),
            final(self).store.contents() == store_after(
                old(self).store.contents(),
                old(self).source@,
                0,
                old(self).ends(),
            ),
            final(self).store.stats_of().count == old(self).store.stats_of().count + old(
                self,
            ).ends().len(),
            final(self).store.stats_of().processed_bytes == old(
                self,
            ).store.stats_of().processed_bytes + old(self).source@.len(),
            final(self).store.stats_of().new_chunks_count == old(
                self,
            ).store.stats_of().new_chunks_count + store_news(
                old(self).store.contents(),
                old(self).source@,
                0,
                old(self).ends(),
            ),
    {
        let ghost all_ends = old(self).ends();
        let ghost m0 = old(self).store.contents();
        let ghost s0 = old(self).store.stats_of();
        let n = self.source.len();
        let disc = discriminator_from_avg(self.avg_size);
        self.index.write_header(self.min_size, self.max_size, self.avg_size);
        proof {
            assert(self.index.buf@ =~= crate::index::encode_header(
                self.min_size,
                self.avg_size,
                self.max_size,
            ));
        }
        let mut pos: usize = 0;
        let ghost mut entries_done: Seq<IndexEntry> = Seq::empty();
        proof {
            assert(entries_done + entries_for(self.source@, 0, all_ends) =~= entries_for(
                self.source@,
                0,
                all_ends,
            ));
        }
        while pos < n
            invariant
                n == self.source@.len(),
                pos <= n,
                self.source == old(self).source,
                self.min_size == old(self).min_size,
                self.max_size == old(self).max_size,
                self.avg_size == old(self).avg_size,
                48 <= self.min_size <= self.max_size,
                disc == discriminator_of(self.avg_size),
                disc >= 1,
                self.store.inv(),
                m0 == old(self).store.contents(),
                s0 == old(self).store.stats_of(),
                s0.processed_bytes + n <= u64::MAX,
                s0.count + n < u64::MAX,
                s0.new_chunks_count + n < u64::MAX,
                96 + 40 * n <= u64::MAX,
                all_ends == chunk_ends(self.source@, 0, self.min_size, self.max_size, disc),
                self.index.buf@ == crate::index::encode_header(
                    self.min_size,
                    self.avg_size,
                    self.max_size,
                ) + crate::index::encode_entries(entries_done),
                self.index.chunk_table_size == 16 + 40 * entries_done.len(),
                entries_done.len() <= pos,
                entries_done + entries_for(
                    self.source@,
                    pos as int,
                    chunk_ends(self.source@, pos as int, self.min_size, self.max_size, disc),
                ) == entries_for(self.source@, 0, all_ends),
                store_after(
                    self.store.contents(),
                    self.source@,
                    pos as int,
                    chunk_ends(self.source@, pos as int, self.min_size, self.max_size, disc),
                ) == store_after(m0, self.source@, 0, all_ends),
                self.store.stats_of().count == s0.count + entries_done.len(),
                self.store.stats_of().new_chunks_count <= s0.new_chunks_count
                    + entries_done.len(),
                self.store.stats_of().processed_bytes == s0.processed_bytes + pos,
                self.store.stats_of().new_chunks_count + store_news(
                    self.store.contents(),
                    self.source@,
                    pos as int,
                    chunk_ends(self.source@, pos as int, self.min_size, self.max_size, disc),
                ) == s0.new_chunks_count + store_news(m0, self.source@, 0, all_ends),
                self.store.stats_of().min_size == s0.min_size,
                self.store.stats_of().max_size == s0.max_size,
                self.store.stats_of().avg_size == s0.avg_size,
            decreases n - pos,
        {
            let ghost rest = chunk_ends(
                self.source@,
                pos as int,
                self.min_size,
                self.max_size,
                disc,
            );
            let end = next_boundary(&self.source, pos, self.min_size, self.max_size, disc);
            let ghost c = self.source@.subrange(pos as int, end as int);
            let ghost tail = chunk_ends(self.source@, end as int, self.min_size, self.max_size, disc);
            proof {
                assert(rest == seq![end as int] + tail);
                assert(rest[0] == end as int);
                assert(rest.drop_first() =~= tail);
            }
            let chunk_slice = vstd::slice::slice_subrange(self.source.as_slice(), pos, end);
            let chunk_vec = vstd::slice::slice_to_vec(chunk_slice);
            proof {
                assert(chunk_vec@ =~= c);
            }
            let ghost m_pre = self.store.contents();
            let ghost st_pre = self.store.stats_of();
            let id = self.store.write_item(chunk_vec);
            proof {
                assert(self.store.contents() == store_insert(m_pre, c));
                assert(store_news(m_pre, self.source@, pos as int, rest) == (if m_pre.dom().contains(
                    sha512_256_of(c),
                ) {
                    0int
                } else {
                    1int
                }) + store_news(self.store.contents(), self.source@, end as int, tail));
                assert(store_after(m_pre, self.source@, pos as int, rest) == store_after(
                    self.store.contents(),
                    self.source@,
                    end as int,
                    tail,
                ));
            }
            self.index.add_entry(end as u64, id);
            proof {
                let e = IndexEntry { offset: end as u64, id: sha512_256_of(c) };
                crate::index::lemma_encode_entries_push(entries_done, e);
                assert(self.index.buf@ =~= crate::index::encode_header(
                    self.min_size,
                    self.avg_size,
                    self.max_size,
                ) + crate::index::encode_entries(entries_done.push(e)));
                assert(entries_for(self.source@, pos as int, rest) == seq![e] + entries_for(
                    self.source@,
                    end as int,
                    tail,
                ));
                assert(entries_done + (seq![e] + entries_for(self.source@, end as int, tail))
                    =~= entries_done.push(e) + entries_for(self.source@, end as int, tail));
                entries_done = entries_done.push(e);
            }
            pos = end;
        }
        proof {
            assert(chunk_ends(self.source@, pos as int, self.min_size, self.max_size, disc)
                =~= Seq::<int>::empty());
            assert(entries_done + Seq::<IndexEntry>::empty() =~= entries_done);
            assert(entries_done == entries_for(self.source@, 0, all_ends));
        }
        self.index.write_tail();
        proof {
            lemma_entries_for_len(self.source@, 0, all_ends);
            assert(entries_done.len() == all_ends.len());
            assert(self.index.buf@ =~= crate::index::encode_index(
                self.min_size,
                self.avg_size,
                self.max_size,
                entries_done,
            ));
            assert(self.store.contents() == store_after(m0, self.source@, 0, all_ends));
            assert(self.store.stats_of().count == s0.count + all_ends.len());
            assert(store_news(self.store.contents(), self.source@, n as int, Seq::<int>::empty())
                == 0);
            assert(self.store.stats_of().new_chunks_count == s0.new_chunks_count + store_news(
                m0,
                self.source@,
                0,
                all_ends,
            ));
        }
    }
}

/// The chunk records a run of the chunker describes: each chunk's content
/// id, start offset and size, in stream order.
pub open spec fn recs_for(data: Seq<u8>, start: int, ends: Seq<int>) -> Seq<ChunkRec>
    decreases ends.len(),
{
    if ends.len() == 0 {
        Seq::empty()
    } else {
        seq![
            ChunkRec {
                id: sha512_256_of(data.subrange(start, ends[0])),
                start: start as u64,
                size: (ends[0] - start) as u64,
            },
        ] + recs_for(data, ends[0], ends.drop_first())
    }
}

/// The store holds the chunks' ids consistently along a run of writes: an
/// id already present maps to that chunk's own bytes (so two distinct
/// chunks never share an id), and every id is 32 bytes long.  This is the
/// collision-freedom that content addressing presumes.
pub open spec fn ids_consistent(
    m: Map<Seq<u8>, Seq<u8>>,
    data: Seq<u8>,
    start: int,
    ends: Seq<int>,
) -> bool
    decreases ends.len(),
{
    if ends.len() == 0 {
        true
    } else {
        let c = data.subrange(start, ends[0]);
        &&& (m.dom().contains(sha512_256_of(c)) ==> m[sha512_256_of(c)] == c)
        &&& sha512_256_of(c).len() == 32
        &&& ids_consistent(store_insert(m, c), data, ends[0], ends.drop_first())
    }
}

/// The index records of a run convert back to exactly its chunk records.
pub proof fn lemma_entries_to_chunks_recs(data: Seq<u8>, start: int, min: u64, max: u64, disc: u32)
    requires
        0 <= start <= data.len() <= u64::MAX,
        min >= 1,
    ensures
        entries_to_chunks(
            entries_for(data, start, chunk_ends(data, start, min, max, disc)),
            start as u64,
        ) == Ok::<Seq<ChunkRec>, crate::index::IndexError>(
            recs_for(data, start, chunk_ends(data, start, min, max, disc)),
        ),
    decreases data.len() - start,
{
    let ends = chunk_ends(data, start, min, max, disc);
    let entries = entries_for(data, start, ends);
    let recs = recs_for(data, start, ends);
    if start >= data.len() {
        assert(ends =~= Seq::<int>::empty());
        assert(entries =~= Seq::<IndexEntry>::empty());
        assert(recs =~= Seq::<ChunkRec>::empty());
    } else {
        let e0 = next_cut(data, start, min, max, disc);
        lemma_next_cut_bounds(data, start, min, max, disc);
        let tail = chunk_ends(data, e0, min, max, disc);
        assert(ends == seq![e0] + tail);
        assert(ends[0] == e0);
        assert(ends.drop_first() =~= tail);
        lemma_entries_to_chunks_recs(data, e0, min, max, disc);
        let he = IndexEntry { offset: e0 as u64, id: sha512_256_of(data.subrange(start, e0)) };
        assert(entries == seq![he] + entries_for(data, e0, tail));
        assert(entries[0] == he);
        assert(entries.drop_first() =~= entries_for(data, e0, tail));
        assert(he.offset >= start as u64);
        let hc = ChunkRec {
            id: he.id,
            start: start as u64,
            size: (e0 as u64 - start as u64) as u64,
        };
        assert(hc == recs[0]);
        assert(recs.drop_first() =~= recs_for(data, e0, tail));
        assert(seq![hc] + recs_for(data, e0, tail) =~= recs);
    }
}

/// The index records of a run are well formed: 32-byte ids and positive,
/// never-decreasing offsets.
pub proof fn lemma_entries_valid(
    m: Map<Seq<u8>, Seq<u8>>,
    data: Seq<u8>,
    start: int,
    min: u64,
    max: u64,
    disc: u32,
)
    requires
        0 <= start <= data.len() <= u64::MAX,
        min >= 1,
        ids_consistent(m, data, start, chunk_ends(data, start, min, max, disc)),
    ensures
        ({
            let entries = entries_for(data, start, chunk_ends(data, start, min, max, disc));
            &&& forall|i: int| 0 <= i < entries.len() ==> (#[trigger] entries[i]).id.len() == 32
            &&& forall|i: int| 0 <= i < entries.len() ==> (#[trigger] entries[i]).offset > start
            &&& forall|i: int, j: int|
                0 <= i < j < entries.len() ==> (#[trigger] entries[i]).offset
                    <= (#[trigger] entries[j]).offset
        }),
    decreases data.len() - start,
{
    let ends = chunk_ends(data, start, min, max, disc);
    let entries = entries_for(data, start, ends);
    if start >= data.len() {
        assert(ends =~= Seq::<int>::empty());
        assert(entries =~= Seq::<IndexEntry>::empty());
    } else {
        let e0 = next_cut(data, start, min, max, disc);
        lemma_next_cut_bounds(data, start, min, max, disc);
        let tail = chunk_ends(data, e0, min, max, disc);
        assert(ends.drop_first() =~= tail);
        let c0 = data.subrange(start, e0);
        assert(store_insert(m, c0) == store_insert(m, data.subrange(start, ends[0])));
        lemma_entries_valid(store_insert(m, c0), data, e0, min, max, disc);
        let he = IndexEntry { offset: e0 as u64, id: sha512_256_of(c0) };
        let tail_entries = entries_for(data, e0, tail);
        assert(entries == seq![he] + tail_entries);
        assert forall|i: int| 0 <= i < entries.len() implies {
            &&& (#[trigger] entries[i]).id.len() == 32
            &&& entries[i].offset > start
        } by {
            if i == 0 {
                assert(entries[0] == he);
            } else {
                assert(entries[i] == tail_entries[i - 1]);
                assert(tail_entries[i - 1].offset > e0);
            }
        }
        assert forall|i: int, j: int| 0 <= i < j < entries.len() implies (#[trigger] entries[i]).offset
            <= (#[trigger] entries[j]).offset by {
            assert(entries[j] == tail_entries[j - 1]);
            assert(tail_entries[j - 1].offset > e0);
            if i == 0 {
                assert(entries[0] == he);
            } else {
                assert(entries[i] == tail_entries[i - 1]);
            }
        }
    }
}

/// The chunk records tile the stream: each chunk ends where the next
/// begins, the first begins at the start, and the last ends at the
/// stream's end.
pub proof fn lemma_chunks_contiguous(data: Seq<u8>, start: int, min: u64, max: u64, disc: u32)
    requires
        0 <= start <= data.len() <= u64::MAX,
        min >= 1,
    ensures
        ({
            let recs = recs_for(data, start, chunk_ends(data, start, min, max, disc));
            &&& (recs.len() > 0 ==> recs[0].start == start as u64)
            &&& forall|i: int|
                0 <= i < recs.len() ==> (#[trigger] recs[i]).start + recs[i].size == (if i + 1
                    < recs.len() {
                    recs[i + 1].start as int
                } else {
                    data.len() as int
                })
        }),
    decreases data.len() - start,
{
    let ends = chunk_ends(data, start, min, max, disc);
    let recs = recs_for(data, start, ends);
    if start >= data.len() {
        assert(ends =~= Seq::<int>::empty());
        assert(recs =~= Seq::<ChunkRec>::empty());
    } else {
        let e0 = next_cut(data, start, min, max, disc);
        lemma_next_cut_bounds(data, start, min, max, disc);
        let tail = chunk_ends(data, e0, min, max, disc);
        assert(ends.drop_first() =~= tail);
        lemma_chunks_contiguous(data, e0, min, max, disc);
        let tail_recs = recs_for(data, e0, tail);
        assert(recs.drop_first() =~= tail_recs);
        assert(tail.len() == 0 ==> e0 >= data.len());
        assert forall|i: int| 0 <= i < recs.len() implies (#[trigger] recs[i]).start
            + recs[i].size == (if i + 1 < recs.len() {
            recs[i + 1].start as int
        } else {
            data.len() as int
        }) by {
            if i == 0 {
                if recs.len() > 1 {
                    assert(recs[1] == tail_recs[0]);
                    assert(tail_recs[0].start == e0 as u64);
                } else {
                    assert(tail_recs.len() == 0);
                    assert(tail =~= Seq::<int>::empty());
                    assert(e0 == data.len());
                }
            } else {
                assert(recs[i] == tail_recs[i - 1]);
                if i + 1 < recs.len() {
                    assert(recs[i + 1] == tail_recs[i]);
                }
            }
        }
    }
}

} // verus!