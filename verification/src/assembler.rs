//! Reconstruction: given a target index, an optional seed (a local byte
//! source with its own index) and a store, each target chunk is copied
//! from the seed when the seed index carries its id, and fetched from the
//! store otherwise; the output is the chunks in stream order.

use vstd::prelude::*;

verus! {

use crate::index::{InMemoryIndex, Index, IndexError, ChunkData, ChunkRec, parse_index, chunk_data_matches};
use crate::store::{LocalStore, Store, StoreError};
use crate::utils::ids_equal;

/// Why assembly failed.
#[derive(Clone, Copy, Debug, PartialEq, Eq, Structural)]
pub enum AssembleError {
    /// A seed was supplied without its index, or a seed index without the
    /// seed.
    Config,
    /// The target or seed index cannot be read.
    Format(IndexError),
    /// A chunk was in neither the seed nor the store.
    Store(StoreError),
    /// A seed chunk's byte range lies outside the seed.
    SeedRange,
}

/// The first seed-index chunk carrying the given id, if any.
pub open spec fn seed_find(chunks: Seq<ChunkRec>, id: Seq<u8>) -> Option<ChunkRec>
    decreases chunks.len(),
{
    if chunks.len() == 0 {
        None
    } else if chunks[0].id == id {
        Some(chunks[0])
    } else {
        seed_find(chunks.drop_first(), id)
    }
}

/// A chunk fetched from the store by id.
pub open spec fn store_fetch(store: Map<Seq<u8>, Seq<u8>>, id: Seq<u8>) -> Result<
    Seq<u8>,
    AssembleError,
> {
    if store.dom().contains(id) {
        Ok(store[id])
    } else {
        Err(AssembleError::Store(StoreError::NotFound))
    }
}

/// The bytes one target chunk resolves to: the seed's byte range when the
/// seed index carries the id, the store's blob otherwise.
pub open spec fn resolve_chunk(
    c: ChunkRec,
    seed: Option<(Seq<u8>, Seq<ChunkRec>)>,
    store: Map<Seq<u8>, Seq<u8>>,
) -> Result<Seq<u8>, AssembleError> {
    match seed {
        Some((bytes, schunks)) => match seed_find(schunks, c.id) {
            Some(sc) => if sc.start + sc.size <= bytes.len() {
                Ok(bytes.subrange(sc.start as int, sc.start + sc.size))
            } else {
                Err(AssembleError::SeedRange)
            },
            None => store_fetch(store, c.id),
        },
        None => store_fetch(store, c.id),
    }
}

/// The reconstructed stream: every target chunk resolved, in order; the
/// first failure is the outcome.
pub open spec fn extract_bytes(
    target: Seq<ChunkRec>,
    seed: Option<(Seq<u8>, Seq<ChunkRec>)>,
    store: Map<Seq<u8>, Seq<u8>>,
) -> Result<Seq<u8>, AssembleError>
    decreases target.len(),
{
    if target.len() == 0 {
        Ok(Seq::empty())
    } else {
        match resolve_chunk(target[0], seed, store) {
            Ok(b) => match extract_bytes(target.drop_first(), seed, store) {
                Ok(rest) => Ok(b + rest),
                Err(e) => Err(e),
            },
            Err(e) => Err(e),
        }
    }
}

/// What one assembly run produces: the target index is read, the seed
/// pairing is checked, the seed index is read, and the chunks are
/// resolved in order.
pub open spec fn assemble_outcome(
    target_buf: Seq<u8>,
    seed_bytes: Option<Seq<u8>>,
    seed_buf: Option<Seq<u8>>,
    store: Map<Seq<u8>, Seq<u8>>,
) -> Result<Seq<u8>, AssembleError> {
    match parse_index(target_buf) {
        Err(e) => Err(AssembleError::Format(e)),
        Ok(t) => if seed_bytes is Some != seed_buf is Some {
            Err(AssembleError::Config)
        } else {
            match seed_buf {
                Some(sb) => match parse_index(sb) {
                    Err(e) => Err(AssembleError::Format(e)),
                    Ok(s) => extract_bytes(
                        t.chunks,
                        Some((seed_bytes.unwrap(), s.chunks)),
                        store,
                    ),
                },
                None => extract_bytes(t.chunks, None, store),
            }
        },
    }
}

/// Scan a chunk list for the first entry with the given id.
pub fn seed_lookup(chunks: &Vec<ChunkData>, id: &[u8; 32]) -> (r: Option<ChunkData>)
    ensures
        match r {
            Some(c) => seed_find(chunks@.map_values(|cd: ChunkData| cd@), id@) == Some(c@),
            None => seed_find(chunks@.map_values(|cd: ChunkData| cd@), id@) is None,
        },
{
    let ghost view = chunks@.map_values(|cd: ChunkData| cd@);
    let n = chunks.len();
    let mut i: usize = 0;
    proof {
        assert(view.subrange(0, n as int) =~= view);
    }
    while i < n
        invariant
            i <= n,
            n == chunks@.len(),
            view == chunks@.map_values(|cd: ChunkData| cd@),
            seed_find(view, id@) == seed_find(view.subrange(i as int, n as int), id@),
        decreases n - i,
    {
        proof {
            assert(view.subrange(i as int, n as int)[0] == view[i as int]);
            assert(view.subrange(i as int, n as int).drop_first() =~= view.subrange(
                i as int + 1,
                n as int,
            ));
        }
        if ids_equal(&chunks[i].id, id) {
            proof {
                assert(view[i as int].id == id@);
            }
            return Some(chunks[i]);
        }
        i = i + 1;
    }
    proof {
        assert(view.subrange(n as int, n as int) =~= Seq::<ChunkRec>::empty());
    }
    None
}

/// One assembly run: the optional seed and its index, the store, the
/// target index, and the output sink the stream is written to.
pub struct AssemblerConfig {
    pub seed: Option<Vec<u8>>,
    pub seed_index: Option<InMemoryIndex>,
    pub store: LocalStore,
    pub new_index: InMemoryIndex,
    pub output: Vec<u8>,
}

/// Reconstruction of a stream from an index, a store and an optional seed.
pub trait AssembleOps: Sized {
    /// The encoded target index.
    spec fn target_buf(&self) -> Seq<u8>;

    /// The seed bytes, when a seed is configured.
    spec fn seed_view(&self) -> Option<Seq<u8>>;

    /// The encoded seed index, when one is configured.
    spec fn seed_index_buf(&self) -> Option<Seq<u8>>;

    /// The store contents.
    spec fn store_map(&self) -> Map<Seq<u8>, Seq<u8>>;

    /// The store's well-formedness.
    spec fn store_ok(&self) -> bool;

    /// The bytes written to the output so far.
    spec fn out_bytes(&self) -> Seq<u8>;

    /// Reconstruct the stream: on success the resolved chunks are
    /// appended to the output in target-index order.
    fn assemble(&mut self) -> (r: Result<(), AssembleError>)
        requires
            old(self).store_ok(),
        ensures
            final(self).store_ok(),
            final(self).store_map() == old(self).store_map(),
            final(self).target_buf() == old(self).target_buf(),
            final(self).seed_view() == old(self).seed_view(),
            final(self).seed_index_buf() == old(self).seed_index_buf(),
            match assemble_outcome(
                old(self).target_buf(),
                old(self).seed_view(),
                old(self).seed_index_buf(),
                old(self).store_map(),
            ) {
                Ok(bytes) => r is Ok && final(self).out_bytes() == old(self).out_bytes() + bytes,
                Err(e) => {
                    &&& r == Err::<(), AssembleError>(e)
                    &&& (e == AssembleError::Config || e matches AssembleError::Format(_))
                        ==> final(self).out_bytes() == old(self).out_bytes()
                },
            },
    ;
}

impl AssembleOps for AssemblerConfig {
    open spec fn target_buf(&self) -> Seq<u8> {
        self.new_index.buf@
    }

    open spec fn seed_view(&self) -> Option<Seq<u8>> {
        match self.seed {
            Some(v) => Some(v@),
            None => None,
        }
    }

    open spec fn seed_index_buf(&self) -> Option<Seq<u8>> {
        match self.seed_index {
            Some(si) => Some(si.buf@),
            None => None,
        }
    }

    open spec fn store_map(&self) -> Map<Seq<u8>, Seq<u8>> {
        self.store.contents()
    }

    open spec fn store_ok(&self) -> bool {
        self.store.inv()
    }

    open spec fn out_bytes(&self) -> Seq<u8> {
        self.output@
    }

    fn assemble(&mut self) -> (r: Result<(), AssembleError>) {
        let ghost out0 = self.output@;
        let ghost smap = self.store.contents();
        match self.new_index.read() {
            Ok(()) => (),
            Err(e) => {
                return Err(AssembleError::Format(e));
            },
        }
        let chunks_updated = self.new_index.getChunkData();
        let ghost target = parse_index(self.new_index.buf@).unwrap().chunks;
        proof {
            assert(chunk_data_matches(chunks_updated@, target));
        }
        let have_seed = self.seed.is_some();
        let have_seed_index = self.seed_index.is_some();
        if have_seed != have_seed_index {
            return Err(AssembleError::Config);
        }
        let seed_chunks: Vec<ChunkData> = if have_seed_index {
            let parsed = match &self.seed_index {
                Some(si) => crate::index::parse_chunks(&si.buf),
                None => {
                    proof {
                        assert(false);
                    }
                    Err(IndexError::Truncated)
                },
            };
            match parsed {
                Ok(v) => v,
                Err(e) => {
                    return Err(AssembleError::Format(e));
                },
            }
        } else {
            Vec::new()
        };
        let ghost seed_pair: Option<(Seq<u8>, Seq<ChunkRec>)> = if have_seed {
            Some(
                (
                    self.seed->Some_0@,
                    parse_index(self.seed_index->Some_0.buf@).unwrap().chunks,
                ),
            )
        } else {
            None
        };
        proof {
            if have_seed {
                assert(chunk_data_matches(
                    seed_chunks@,
                    parse_index(self.seed_index->Some_0.buf@).unwrap().chunks,
                ));
            }
        }
        let n = chunks_updated.len();
        let ghost seed_chunk_recs = seed_chunks@.map_values(|cd: ChunkData| cd@);
        proof {
            if have_seed {
                assert(seed_chunk_recs =~= parse_index(
                    self.seed_index->Some_0.buf@,
                ).unwrap().chunks);
            }
            assert(assemble_outcome(
                old(self).new_index.buf@,
                old(self).seed_view(),
                old(self).seed_index_buf(),
                smap,
            ) == extract_bytes(target, seed_pair, smap));
            assert(target.subrange(0, n as int) =~= target);
            assert(self.output@.skip(out0.len() as int) =~= Seq::<u8>::empty());
            match extract_bytes(target, seed_pair, smap) {
                Ok(rest) => {
                    assert(Seq::<u8>::empty() + rest =~= rest);
                },
                Err(_) => {},
            }
        }
        let mut i: usize = 0;
        while i < n
            invariant
                i <= n,
                n == chunks_updated@.len(),
                chunk_data_matches(chunks_updated@, target),
                self.store == old(self).store,
                self.seed == old(self).seed,
                self.seed_index == old(self).seed_index,
                self.new_index.buf@ == old(self).new_index.buf@,
                self.new_index.chunk_table_size == old(self).new_index.chunk_table_size,
                self.store.inv(),
                smap == self.store.contents(),
                have_seed == (self.seed is Some),
                have_seed == (self.seed_index is Some),
                have_seed ==> seed_pair == Some::<(Seq<u8>, Seq<ChunkRec>)>(
                    (
                        self.seed->Some_0@,
                        parse_index(self.seed_index->Some_0.buf@).unwrap().chunks,
                    ),
                ),
                !have_seed ==> seed_pair is None,
                have_seed ==> seed_chunk_recs == seed_pair->Some_0.1,
                seed_chunk_recs == seed_chunks@.map_values(|cd: ChunkData| cd@),
                assemble_outcome(
                    old(self).new_index.buf@,
                    old(self).seed_view(),
                    old(self).seed_index_buf(),
                    smap,
                ) == extract_bytes(target, seed_pair, smap),
                out0 == old(self).output@,
                out0.len() <= self.output@.len(),
                out0 == self.output@.subrange(0, out0.len() as int),
                match extract_bytes(target.subrange(i as int, n as int), seed_pair, smap) {
                    Ok(rest) => extract_bytes(target, seed_pair, smap) == Ok::<
                        Seq<u8>,
                        AssembleError,
                    >(self.output@.skip(out0.len() as int) + rest),
                    Err(e) => extract_bytes(target, seed_pair, smap) == Err::<
                        Seq<u8>,
                        AssembleError,
                    >(e),
                },
            decreases n - i,
        {
            let ghost done = self.output@.skip(out0.len() as int);
            let ghost head = resolve_chunk(target[i as int], seed_pair, smap);
            proof {
                assert(target.subrange(i as int, n as int)[0] == target[i as int]);
                assert(target.subrange(i as int, n as int).drop_first() =~= target.subrange(
                    i as int + 1,
                    n as int,
                ));
                assert(chunks_updated@[i as int]@ == target[i as int]);
            }
            let uc = chunks_updated[i];
            let mut resolved = false;
            if have_seed {
                match seed_lookup(&seed_chunks, &uc.id) {
                    Some(c) => {
                        proof {
                            assert(seed_find(seed_pair->Some_0.1, target[i as int].id) == Some(
                                c@,
                            ));
                        }
                        let seed_ref = match &self.seed {
                            Some(sv) => sv,
                            None => {
                                proof {
                                    assert(false);
                                }
                                return Err(AssembleError::Config);
                            },
                        };
                        let seed_len = seed_ref.len();
                        if c.start > seed_len as u64 || c.size > (seed_len as u64) - c.start {
                            proof {
                                assert(head == Err::<Seq<u8>, AssembleError>(
                                    AssembleError::SeedRange,
                                ));
                                assert(extract_bytes(
                                    target.subrange(i as int, n as int),
                                    seed_pair,
                                    smap,
                                ) == Err::<Seq<u8>, AssembleError>(AssembleError::SeedRange));
                            }
                            return Err(AssembleError::SeedRange);
                        }
                        let s = c.start as usize;
                        let e = s + (c.size as usize);
                        let sl = vstd::slice::slice_subrange(seed_ref.as_slice(), s, e);
                        let mut piece = vstd::slice::slice_to_vec(sl);
                        proof {
                            assert(piece@ =~= head.unwrap());
                        }
                        self.output.append(&mut piece);
                        resolved = true;
                    },
                    None => {},
                }
            }
            if !resolved {
                proof {
                    if have_seed {
                        assert(seed_find(seed_pair->Some_0.1, target[i as int].id) is None);
                    }
                    assert(head == store_fetch(smap, target[i as int].id));
                }
                let idv = vstd::slice::slice_to_vec(uc.id.as_slice());
                proof {
                    assert(idv@ =~= uc.id@);
                }
                match self.store.read_item(idv) {
                    Ok(bytes) => {
                        proof {
                            assert(bytes@ == head.unwrap());
                        }
                        let mut piece = bytes;
                        self.output.append(&mut piece);
                    },
                    Err(e) => {
                        proof {
                            assert(head == Err::<Seq<u8>, AssembleError>(
                                AssembleError::Store(StoreError::NotFound),
                            ));
                            assert(extract_bytes(
                                target.subrange(i as int, n as int),
                                seed_pair,
                                smap,
                            ) == Err::<Seq<u8>, AssembleError>(
                                AssembleError::Store(StoreError::NotFound),
                            ));
                        }
                        return Err(AssembleError::Store(e));
                    },
                }
            }
            proof {
                assert(head is Ok);
                assert(out0 =~= self.output@.subrange(0, out0.len() as int));
                assert(self.output@.skip(out0.len() as int) =~= done + head.unwrap());
                match extract_bytes(target.subrange(i as int + 1, n as int), seed_pair, smap) {
                    Ok(rest) => {
                        assert(extract_bytes(target.subrange(i as int, n as int), seed_pair, smap)
                            == Ok::<Seq<u8>, AssembleError>(head.unwrap() + rest));
                        assert(done + (head.unwrap() + rest) =~= (done + head.unwrap()) + rest);
                    },
                    Err(_) => {},
                }
            }
            i = i + 1;
        }
        proof {
            assert(target.subrange(n as int, n as int) =~= Seq::<ChunkRec>::empty());
            assert(self.output@.skip(out0.len() as int) + Seq::<u8>::empty()
                =~= self.output@.skip(out0.len() as int));
            assert(out0 + self.output@.skip(out0.len() as int) =~= self.output@);
        }
        Ok(())
    }
}

/// Seed short-circuit: when the seed index carries every target chunk's
/// id, assembly never consults the store — the outcome is the same
/// whatever the store holds.
pub proof fn lemma_seed_short_circuit(
    target: Seq<ChunkRec>,
    seed_bytes: Seq<u8>,
    seed_chunks: Seq<ChunkRec>,
    store1: Map<Seq<u8>, Seq<u8>>,
    store2: Map<Seq<u8>, Seq<u8>>,
)
    requires
        forall|i: int|
            0 <= i < target.len() ==> seed_find(seed_chunks, (#[trigger] target[i]).id) is Some,
    ensures
        extract_bytes(target, Some((seed_bytes, seed_chunks)), store1) == extract_bytes(
            target,
            Some((seed_bytes, seed_chunks)),
            store2,
        ),
    decreases target.len(),
{
    if target.len() == 0 {
    } else {
        assert(seed_find(seed_chunks, target[0].id) is Some);
        assert(forall|i: int|
            0 <= i < target.drop_first().len() ==> seed_find(
                seed_chunks,
                (#[trigger] target.drop_first()[i]).id,
            ) is Some);
        lemma_seed_short_circuit(target.drop_first(), seed_bytes, seed_chunks, store1, store2);
    }
}

/// Every chunk of a run can be fetched back from the store the run built:
/// the write of that chunk bound its id, and later writes never overwrite.
proof fn lemma_extract_chunks(
    data: Seq<u8>,
    m: Map<Seq<u8>, Seq<u8>>,
    full: Map<Seq<u8>, Seq<u8>>,
    start: int,
    min: u64,
    max: u64,
    disc: u32,
)
    requires
        0 <= start <= data.len() <= u64::MAX,
        min >= 1,
        crate::chunker::ids_consistent(m, data, start, crate::chunker::chunk_ends(data, start, min, max, disc)),
        full == crate::chunker::store_after(
            m,
            data,
            start,
            crate::chunker::chunk_ends(data, start, min, max, disc),
        ),
    ensures
        extract_bytes(
            crate::chunker::recs_for(data, start, crate::chunker::chunk_ends(data, start, min, max, disc)),
            None,
            full,
        ) == Ok::<Seq<u8>, AssembleError>(data.subrange(start, data.len() as int)),
    decreases data.len() - start,
{
    let ends = crate::chunker::chunk_ends(data, start, min, max, disc);
    let recs = crate::chunker::recs_for(data, start, ends);
    if start >= data.len() {
        assert(ends =~= Seq::<int>::empty());
        assert(recs =~= Seq::<ChunkRec>::empty());
        assert(data.subrange(start, data.len() as int) =~= Seq::<u8>::empty());
    } else {
        let e0 = crate::chunker::next_cut(data, start, min, max, disc);
        crate::chunker::lemma_next_cut_bounds(data, start, min, max, disc);
        let tail = crate::chunker::chunk_ends(data, e0, min, max, disc);
        assert(ends == seq![e0] + tail);
        assert(ends[0] == e0);
        assert(ends.drop_first() =~= tail);
        let c0 = data.subrange(start, e0);
        let id0 = crate::store::sha512_256_of(c0);
        let m1 = crate::chunker::store_insert(m, c0);
        assert(m1.dom().contains(id0) && m1[id0] == c0);
        assert(full == crate::chunker::store_after(m1, data, e0, tail));
        crate::chunker::lemma_store_after_preserves(m1, data, e0, tail, id0);
        assert(full.dom().contains(id0) && full[id0] == c0);
        assert(recs[0].id == id0);
        assert(resolve_chunk(recs[0], None, full) == Ok::<Seq<u8>, AssembleError>(c0));
        lemma_extract_chunks(data, m1, full, e0, min, max, disc);
        assert(recs.drop_first() =~= crate::chunker::recs_for(data, e0, tail));
        assert(c0 + data.subrange(e0, data.len() as int) =~= data.subrange(
            start,
            data.len() as int,
        ));
    }
}

/// Round trip: chunk a stream into an index and a store, read the index
/// back, and reassemble from the store alone — the original bytes come
/// back, and the index parses to exactly the run's chunk records.  The
/// hypothesis is the collision-freedom that content addressing presumes:
/// along this run, chunks with equal ids hold equal bytes.
pub proof fn lemma_make_extract_round_trip(
    data: Seq<u8>,
    m0: Map<Seq<u8>, Seq<u8>>,
    min: u64,
    avg: u64,
    max: u64,
    disc: u32,
)
    requires
        1 <= min,
        data.len() <= u64::MAX,
        crate::chunker::ids_consistent(m0, data, 0, crate::chunker::chunk_ends(data, 0, min, max, disc)),
    ensures
        ({
            let ends = crate::chunker::chunk_ends(data, 0, min, max, disc);
            let entries = crate::chunker::entries_for(data, 0, ends);
            let store = crate::chunker::store_after(m0, data, 0, ends);
            let recs = crate::chunker::recs_for(data, 0, ends);
            &&& parse_index(crate::index::encode_index(min, avg, max, entries)) == Ok::<
                crate::index::IndexContents,
                IndexError,
            >(crate::index::IndexContents { min, avg, max, chunks: recs })
            &&& extract_bytes(recs, None, store) == Ok::<Seq<u8>, AssembleError>(data)
        }),
{
    let ends = crate::chunker::chunk_ends(data, 0, min, max, disc);
    let entries = crate::chunker::entries_for(data, 0, ends);
    let store = crate::chunker::store_after(m0, data, 0, ends);
    let recs = crate::chunker::recs_for(data, 0, ends);
    crate::chunker::lemma_entries_valid(m0, data, 0, min, max, disc);
    crate::index::lemma_index_round_trip(min, avg, max, entries);
    crate::chunker::lemma_entries_to_chunks_recs(data, 0, min, max, disc);
    lemma_extract_chunks(data, m0, store, 0, min, max, disc);
    assert(data.subrange(0, data.len() as int) =~= data);
}

} // verus!