//! The binary chunk index: an exact little-endian layout of header,
//! chunk table and tail, with a verified writer and reader.
//!
//! Layout, all fields 8-byte little-endian unless noted:
//! header `48, index magic, feature flags, min, avg, max`, then the table
//! header pair `u64::MAX, table magic`, then one record per chunk
//! `(cumulative end offset, 32-byte id)` in stream order, terminated by a
//! zero offset, then the tail `0, 48, table byte size, tail magic`.

use vstd::prelude::*;

verus! {

use vstd::bytes::{spec_u64_from_le_bytes, spec_u64_to_le_bytes, lemma_auto_spec_u64_to_from_le_bytes};
use crate::utils::{read_u64, write_u64, write_32_bytes, read_32_bytes};

pub const CA_FORMAT_INDEX: u64 = 0x96824d9c7b129ff9;

pub const CA_FORMAT_TABLE: u64 = 0xe75b9e112f17417d;

pub const CA_FORMAT_SHA512_256: u64 = 0x2000000000000000;

pub const CA_FORMAT_TABLE_TAIL_MARKER: u64 = 0x4b4f050e5549ecd1;

pub const FEATURE_FLAGS: u64 = 0xa000000000000000;

/// One record of the on-disk chunk table: the cumulative end offset of a
/// chunk in the reconstructed stream, and its content id.
#[derive(Clone, Copy)]
pub struct TableItem {
    pub offset: u64,
    pub id: [u8; 32],
}

/// A chunk of the reconstructed stream: its content id, start offset and
/// size in bytes.
#[derive(Clone, Copy)]
pub struct ChunkData {
    pub id: [u8; 32],
    pub start: u64,
    pub size: u64,
}

/// Mathematical form of a table record.
pub struct IndexEntry {
    pub offset: u64,
    pub id: Seq<u8>,
}

/// Mathematical form of a chunk.
pub struct ChunkRec {
    pub id: Seq<u8>,
    pub start: u64,
    pub size: u64,
}

impl View for TableItem {
    type V = IndexEntry;

    open spec fn view(&self) -> IndexEntry {
        IndexEntry { offset: self.offset, id: self.id@ }
    }
}

impl View for ChunkData {
    type V = ChunkRec;

    open spec fn view(&self) -> ChunkRec {
        ChunkRec { id: self.id@, start: self.start, size: self.size }
    }
}

/// Why an index cannot be read.
#[derive(Clone, Copy, Debug, PartialEq, Eq, Structural)]
pub enum IndexError {
    /// The header magic is not the index format magic.
    NotAnIndex,
    /// The feature flags lack the SHA-512/256 bit.
    UnsupportedFlags,
    /// The table header's size field is not the expected sentinel.
    InvalidTableSize,
    /// The table header's magic is not the table magic.
    InvalidTableMagic,
    /// A tail marker does not match.
    MissingTailMarker,
    /// The buffer ends before the structure does.
    Truncated,
    /// A record's offset is smaller than its predecessor's.
    InvalidOffsets,
}

/// The little-endian bytes of a `u64`.
pub open spec fn u64le(x: u64) -> Seq<u8> {
    spec_u64_to_le_bytes(x)
}

/// The `u64` stored little-endian at `pos`.
pub open spec fn parse_u64(b: Seq<u8>, pos: int) -> u64 {
    spec_u64_from_le_bytes(b.subrange(pos, pos + 8))
}

/// The 48-byte header followed by the table header pair.
pub open spec fn encode_header(min: u64, avg: u64, max: u64) -> Seq<u8> {
    u64le(48) + u64le(CA_FORMAT_INDEX) + u64le(FEATURE_FLAGS) + u64le(min) + u64le(avg) + u64le(
        max,
    ) + u64le(u64::MAX) + u64le(CA_FORMAT_TABLE)
}

/// One chunk table record.
pub open spec fn encode_entry(e: IndexEntry) -> Seq<u8> {
    u64le(e.offset) + e.id
}

/// The chunk table records in stream order.
pub open spec fn encode_entries(items: Seq<IndexEntry>) -> Seq<u8>
    decreases items.len(),
{
    if items.len() == 0 {
        Seq::empty()
    } else {
        encode_entry(items[0]) + encode_entries(items.drop_first())
    }
}

/// Appending a record extends the encoded table at its end.
pub proof fn lemma_encode_entries_push(items: Seq<IndexEntry>, e: IndexEntry)
    ensures
        encode_entries(items.push(e)) == encode_entries(items) + encode_entry(e),
    decreases items.len(),
{
    let s1 = items.push(e);
    if items.len() == 0 {
        assert(s1.drop_first() =~= Seq::<IndexEntry>::empty());
        assert(s1[0] == e);
        assert(encode_entries(s1) == encode_entry(e) + encode_entries(Seq::<IndexEntry>::empty()));
        assert(encode_entries(s1) =~= encode_entry(e));
        assert(encode_entries(items) + encode_entry(e) =~= encode_entry(e));
    } else {
        lemma_encode_entries_push(items.drop_first(), e);
        assert(s1.drop_first() =~= items.drop_first().push(e));
        assert(s1[0] == items[0]);
        assert(encode_entries(s1) == encode_entry(items[0]) + encode_entries(
            items.drop_first().push(e),
        ));
        assert(encode_entries(items.drop_first().push(e)) == encode_entries(items.drop_first())
            + encode_entry(e));
        assert(encode_entries(items) == encode_entry(items[0]) + encode_entries(
            items.drop_first(),
        ));
        assert(encode_entries(s1) =~= encode_entries(items) + encode_entry(e));
    }
}

/// The terminating record and tail: a zero offset, a zero marker, the
/// fixed header size, the table byte size, and the tail magic.
pub open spec fn encode_tail(table_size: u64) -> Seq<u8> {
    u64le(0) + u64le(0) + u64le(48) + u64le(table_size) + u64le(CA_FORMAT_TABLE_TAIL_MARKER)
}

/// A whole index, as the writer lays it out.
pub open spec fn encode_index(min: u64, avg: u64, max: u64, items: Seq<IndexEntry>) -> Seq<u8> {
    encode_header(min, avg, max) + encode_entries(items) + encode_tail(
        (56 + 40 * items.len()) as u64,
    )
}

/// Table records read from `pos` on, up to and including the zero-offset
/// terminator; the second component is the position just after it.
pub open spec fn parse_records(b: Seq<u8>, pos: int) -> Result<(Seq<IndexEntry>, int), IndexError>
    decreases b.len() - pos,
{
    if pos + 8 > b.len() {
        Err(IndexError::Truncated)
    } else {
        let offset = parse_u64(b, pos);
        if offset == 0 {
            Ok((Seq::empty(), pos + 8))
        } else if pos + 40 > b.len() {
            Err(IndexError::Truncated)
        } else {
            let e = IndexEntry { offset, id: b.subrange(pos + 8, pos + 40) };
            match parse_records(b, pos + 40) {
                Ok((rest, end)) => Ok((seq![e] + rest, end)),
                Err(err) => Err(err),
            }
        }
    }
}

/// Cumulative end offsets turned into `(start, size)` chunks: each record's
/// start is the previous record's offset, beginning at `last`.
pub open spec fn entries_to_chunks(entries: Seq<IndexEntry>, last: u64) -> Result<
    Seq<ChunkRec>,
    IndexError,
>
    decreases entries.len(),
{
    if entries.len() == 0 {
        Ok(Seq::empty())
    } else {
        let e = entries[0];
        if e.offset < last {
            Err(IndexError::InvalidOffsets)
        } else {
            let c = ChunkRec { id: e.id, start: last, size: (e.offset - last) as u64 };
            match entries_to_chunks(entries.drop_first(), e.offset) {
                Ok(rest) => Ok(seq![c] + rest),
                Err(err) => Err(err),
            }
        }
    }
}

/// What a successfully read index holds.
pub struct IndexContents {
    pub min: u64,
    pub avg: u64,
    pub max: u64,
    pub chunks: Seq<ChunkRec>,
}

/// The reader, as a total function on buffers: the header is validated,
/// the table is read to its terminator, the tail markers are checked, and
/// the records become chunks.  Bytes after the tail are ignored.
pub open spec fn parse_index(b: Seq<u8>) -> Result<IndexContents, IndexError> {
    if b.len() < 16 {
        Err(IndexError::Truncated)
    } else if parse_u64(b, 8) != CA_FORMAT_INDEX {
        Err(IndexError::NotAnIndex)
    } else if b.len() < 48 {
        Err(IndexError::Truncated)
    } else if parse_u64(b, 16) & CA_FORMAT_SHA512_256 == 0 {
        Err(IndexError::UnsupportedFlags)
    } else if b.len() < 64 {
        Err(IndexError::Truncated)
    } else if parse_u64(b, 48) != u64::MAX {
        Err(IndexError::InvalidTableSize)
    } else if parse_u64(b, 56) != CA_FORMAT_TABLE {
        Err(IndexError::InvalidTableMagic)
    } else {
        match parse_records(b, 64) {
            Err(e) => Err(e),
            Ok((entries, end)) => if end + 32 > b.len() {
                Err(IndexError::Truncated)
            } else if parse_u64(b, end) != 0 {
                Err(IndexError::MissingTailMarker)
            } else if parse_u64(b, end + 24) != CA_FORMAT_TABLE_TAIL_MARKER {
                Err(IndexError::MissingTailMarker)
            } else {
                match entries_to_chunks(entries, 0) {
                    Err(e) => Err(e),
                    Ok(chunks) => Ok(
                        IndexContents {
                            min: parse_u64(b, 24),
                            avg: parse_u64(b, 32),
                            max: parse_u64(b, 40),
                            chunks,
                        },
                    ),
                }
            },
        }
    }
}

/// Whether an executable chunk list carries exactly the parsed chunks.
pub open spec fn chunk_data_matches(cds: Seq<ChunkData>, rs: Seq<ChunkRec>) -> bool {
    &&& cds.len() == rs.len()
    &&& forall|i: int| 0 <= i < cds.len() ==> #[trigger] cds[i]@ == rs[i]
}

/// Writer and reader of the binary index format, held in memory.
pub trait Index: Sized {
    spec fn buf_view(&self) -> Seq<u8>;

    spec fn table_size(&self) -> u64;

    spec fn chunks_view(&self) -> Seq<ChunkData>;

    /// Append the index header for the given chunk-size bounds.
    fn write_header(&mut self, min: u64, max: u64, avg: u64)
        requires
            old(self).table_size() + 16 <= u64::MAX,
        ensures
            final(self).buf_view() == old(self).buf_view() + encode_header(min, avg, max),
            final(self).table_size() == old(self).table_size() + 16,
            final(self).chunks_view() == old(self).chunks_view(),
    ;

    /// Append one chunk record: the chunk's cumulative end offset and id.
    fn add_entry(&mut self, start: u64, chunk_id: [u8; 32])
        requires
            old(self).table_size() + 40 <= u64::MAX,
        ensures
            final(self).buf_view() == old(self).buf_view() + encode_entry(
                IndexEntry { offset: start, id: chunk_id@ },
            ),
            final(self).table_size() == old(self).table_size() + 40,
            final(self).chunks_view() == old(self).chunks_view(),
    ;

    /// Append the terminating record and tail.
    fn write_tail(&mut self)
        requires
            old(self).table_size() + 80 <= u64::MAX,
        ensures
            final(self).buf_view() == old(self).buf_view() + encode_tail(
                (old(self).table_size() + 40) as u64,
            ),
            final(self).table_size() == old(self).table_size() + 40,
            final(self).chunks_view() == old(self).chunks_view(),
    ;

    /// Parse the held buffer into the chunk list, validating the format.
    fn read(&mut self) -> (r: Result<(), IndexError>)
        ensures
            final(self).buf_view() == old(self).buf_view(),
            final(self).table_size() == old(self).table_size(),
            match parse_index(old(self).buf_view()) {
                Ok(c) => r is Ok && chunk_data_matches(final(self).chunks_view(), c.chunks),
                Err(e) => r == Err::<(), IndexError>(e) && final(self).chunks_view() == old(
                    self,
                ).chunks_view(),
            },
    ;

    /// The chunk list a successful `read` produced.
    #[allow(non_snake_case)]
    fn getChunkData(&self) -> (r: Vec<ChunkData>)
        ensures
            r@ == self.chunks_view(),
    ;
}

/// An index held entirely in memory: the encoded bytes, the running byte
/// count of the chunk table, and the chunk list of the last `read`.
pub struct InMemoryIndex {
    pub path: String,
    pub buf: Vec<u8>,
    pub chunk_table_size: u64,
    pub chunk_data: Vec<ChunkData>,
}

impl InMemoryIndex {
    /// A fresh, empty index.
    pub fn new(path: &str) -> (r: InMemoryIndex)
        ensures
            r.buf@ == Seq::<u8>::empty(),
            r.chunk_table_size == 0,
            r.chunk_data@ == Seq::<ChunkData>::empty(),
    {
        InMemoryIndex {
            path: path.to_owned(),
            buf: Vec::new(),
            chunk_table_size: 0,
            chunk_data: Vec::new(),
        }
    }

    /// An index over bytes read from elsewhere, ready for `read`.
    pub fn from_bytes(path: &str, buf: Vec<u8>) -> (r: InMemoryIndex)
        ensures
            r.buf@ == buf@,
            r.chunk_table_size == 0,
            r.chunk_data@ == Seq::<ChunkData>::empty(),
    {
        InMemoryIndex { path: path.to_owned(), buf, chunk_table_size: 0, chunk_data: Vec::new() }
    }
}

impl Index for InMemoryIndex {
    open spec fn buf_view(&self) -> Seq<u8> {
        self.buf@
    }

    open spec fn table_size(&self) -> u64 {
        self.chunk_table_size
    }

    open spec fn chunks_view(&self) -> Seq<ChunkData> {
        self.chunk_data@
    }

    fn write_header(&mut self, min: u64, max: u64, avg: u64) {
        write_u64(&mut self.buf, 48);
        write_u64(&mut self.buf, CA_FORMAT_INDEX);
        write_u64(&mut self.buf, FEATURE_FLAGS);
        write_u64(&mut self.buf, min);
        write_u64(&mut self.buf, avg);
        write_u64(&mut self.buf, max);
        write_u64(&mut self.buf, u64::MAX);
        self.chunk_table_size = self.chunk_table_size + 8;
        write_u64(&mut self.buf, CA_FORMAT_TABLE);
        self.chunk_table_size = self.chunk_table_size + 8;
        proof {
            assert(self.buf@ =~= old(self).buf@ + encode_header(min, avg, max));
        }
    }

    fn add_entry(&mut self, start: u64, chunk_id: [u8; 32]) {
        write_u64(&mut self.buf, start);
        self.chunk_table_size = self.chunk_table_size + 8;
        write_32_bytes(&mut self.buf, &chunk_id);
        self.chunk_table_size = self.chunk_table_size + 32;
        proof {
            assert(self.buf@ =~= old(self).buf@ + encode_entry(
                IndexEntry { offset: start, id: chunk_id@ },
            ));
        }
    }

    fn write_tail(&mut self) {
        write_u64(&mut self.buf, 0);
        write_u64(&mut self.buf, 0);
        write_u64(&mut self.buf, 48);
        write_u64(&mut self.buf, self.chunk_table_size + 40);
        write_u64(&mut self.buf, CA_FORMAT_TABLE_TAIL_MARKER);
        self.chunk_table_size = self.chunk_table_size + 40;
        proof {
            assert(self.buf@ =~= old(self).buf@ + encode_tail((old(self).chunk_table_size
                + 40) as u64));
        }
    }

    fn read(&mut self) -> (r: Result<(), IndexError>) {
        match parse_chunks(&self.buf) {
            Ok(v) => {
                self.chunk_data = v;
                Ok(())
            },
            Err(e) => Err(e),
        }
    }

    #[allow(non_snake_case)]
    fn getChunkData(&self) -> (r: Vec<ChunkData>) {
        let mut out: Vec<ChunkData> = Vec::new();
        let mut i: usize = 0;
        while i < self.chunk_data.len()
            invariant
                i <= self.chunk_data@.len(),
                out@ == self.chunk_data@.subrange(0, i as int),
            decreases self.chunk_data@.len() - i,
        {
            out.push(self.chunk_data[i]);
            proof {
                assert(out@ =~= self.chunk_data@.subrange(0, i as int + 1));
            }
            i = i + 1;
        }
        proof {
            assert(out@ =~= self.chunk_data@);
        }
        out
    }
}

/// Parse an encoded index into its chunk list, validating the format.
pub fn parse_chunks(buf: &Vec<u8>) -> (r: Result<Vec<ChunkData>, IndexError>)
    ensures
        match parse_index(buf@) {
            Ok(c) => r matches Ok(v) && chunk_data_matches(v@, c.chunks),
            Err(e) => r == Err::<Vec<ChunkData>, IndexError>(e),
        },
{

        let n = buf.len();
        if n < 16 {
            return Err(IndexError::Truncated);
        }
        if read_u64(buf, 8) != CA_FORMAT_INDEX {
            return Err(IndexError::NotAnIndex);
        }
        if n < 48 {
            return Err(IndexError::Truncated);
        }
        if read_u64(buf, 16) & CA_FORMAT_SHA512_256 == 0 {
            return Err(IndexError::UnsupportedFlags);
        }
        if n < 64 {
            return Err(IndexError::Truncated);
        }
        if read_u64(buf, 48) != u64::MAX {
            return Err(IndexError::InvalidTableSize);
        }
        if read_u64(buf, 56) != CA_FORMAT_TABLE {
            return Err(IndexError::InvalidTableMagic);
        }
        let mut pos: usize = 64;
        let mut items: Vec<TableItem> = Vec::new();
        let end: usize;
        loop
            invariant_except_break
                64 <= pos <= n,
                n == buf@.len(),
                parse_u64(buf@, 8) == CA_FORMAT_INDEX,
                parse_u64(buf@, 16) & CA_FORMAT_SHA512_256 != 0,
                parse_u64(buf@, 48) == u64::MAX,
                parse_u64(buf@, 56) == CA_FORMAT_TABLE,
                match parse_records(buf@, pos as int) {
                    Ok(p) => parse_records(buf@, 64) == Ok::<_, IndexError>(
                        (items@.map_values(|t: TableItem| t@) + p.0, p.1),
                    ),
                    Err(e) => parse_records(buf@, 64) == Err::<
                        (Seq<IndexEntry>, int),
                        IndexError,
                    >(e),
                },
            ensures
                64 <= pos <= n,
                n == buf@.len(),
                parse_u64(buf@, 8) == CA_FORMAT_INDEX,
                parse_u64(buf@, 16) & CA_FORMAT_SHA512_256 != 0,
                parse_u64(buf@, 48) == u64::MAX,
                parse_u64(buf@, 56) == CA_FORMAT_TABLE,
                end == pos,
                parse_records(buf@, 64) == Ok::<_, IndexError>(
                    (items@.map_values(|t: TableItem| t@), pos as int),
                ),
            decreases n - pos,
        {
            if n - pos < 8 {
                assert(parse_records(buf@, 64) == Err::<(Seq<IndexEntry>, int), IndexError>(
                    IndexError::Truncated,
                ));
                return Err(IndexError::Truncated);
            }
            let offset = read_u64(buf, pos);
            if offset == 0 {
                proof {
                    let p = parse_records(buf@, pos as int).unwrap();
                    assert(items@.map_values(|t: TableItem| t@) + p.0 =~= items@.map_values(
                        |t: TableItem| t@,
                    ));
                }
                end = pos + 8;
                pos = pos + 8;
                break ;
            }
            if n - pos < 40 {
                assert(parse_records(buf@, 64) == Err::<(Seq<IndexEntry>, int), IndexError>(
                    IndexError::Truncated,
                ));
                return Err(IndexError::Truncated);
            }
            let id = read_32_bytes(buf, pos + 8);
            let ghost items_pre = items@;
            items.push(TableItem { offset, id });
            proof {
                let f = |t: TableItem| t@;
                let e = IndexEntry { offset, id: buf@.subrange(pos + 8, pos + 40) };
                assert(items@.map_values(f) =~= items_pre.map_values(f).push(e));
                match parse_records(buf@, pos + 40) {
                    Ok(p) => {
                        assert(parse_records(buf@, pos as int) == Ok::<_, IndexError>(
                            (seq![e] + p.0, p.1),
                        ));
                        assert(items_pre.map_values(f) + (seq![e] + p.0) =~= items@.map_values(f)
                            + p.0);
                    },
                    Err(_) => {},
                }
            }
            pos = pos + 40;
        }
        // pos now stands just past the zero terminator; the tail needs
        // four more fields.
        if n - pos < 32 {
            return Err(IndexError::Truncated);
        }
        if read_u64(buf, pos) != 0 {
            return Err(IndexError::MissingTailMarker);
        }
        if read_u64(buf, pos + 24) != CA_FORMAT_TABLE_TAIL_MARKER {
            return Err(IndexError::MissingTailMarker);
        }
        let ghost entries = items@.map_values(|t: TableItem| t@);
        let mut chunks: Vec<ChunkData> = Vec::new();
        let mut last: u64 = 0;
        let mut i: usize = 0;
        let m = items.len();
        proof {
            assert(entries.subrange(0, m as int) =~= entries);
            match entries_to_chunks(entries, 0) {
                Ok(rest) => {
                    assert(chunks@.map_values(|c: ChunkData| c@) + rest =~= rest);
                },
                Err(_) => {},
            }
        }
        while i < m
            invariant
                n == buf@.len(),
                parse_u64(buf@, 8) == CA_FORMAT_INDEX,
                parse_u64(buf@, 16) & CA_FORMAT_SHA512_256 != 0,
                parse_u64(buf@, 48) == u64::MAX,
                parse_u64(buf@, 56) == CA_FORMAT_TABLE,
                parse_records(buf@, 64) == Ok::<_, IndexError>((entries, end as int)),
                64 <= end && end + 32 <= n,
                parse_u64(buf@, end as int) == 0,
                parse_u64(buf@, end as int + 24) == CA_FORMAT_TABLE_TAIL_MARKER,
                i <= m,
                m == items@.len(),
                entries == items@.map_values(|t: TableItem| t@),
                match entries_to_chunks(entries.subrange(i as int, m as int), last) {
                    Ok(rest) => entries_to_chunks(entries, 0) == Ok::<_, IndexError>(
                        chunks@.map_values(|c: ChunkData| c@) + rest,
                    ),
                    Err(e) => entries_to_chunks(entries, 0) == Err::<Seq<ChunkRec>, IndexError>(e),
                },
            decreases m - i,
        {
            let item = items[i];
            proof {
                assert(entries.subrange(i as int, m as int)[0] == items@[i as int]@);
            }
            if item.offset < last {
                assert(entries_to_chunks(entries, 0) == Err::<Seq<ChunkRec>, IndexError>(
                    IndexError::InvalidOffsets,
                ));
                return Err(IndexError::InvalidOffsets);
            }
            let c = ChunkData { id: item.id, start: last, size: item.offset - last };
            let ghost chunks_pre = chunks@;
            chunks.push(c);
            proof {
                let f = |c: ChunkData| c@;
                assert(entries.subrange(i as int, m as int).drop_first() =~= entries.subrange(
                    i as int + 1,
                    m as int,
                ));
                match entries_to_chunks(entries.subrange(i as int + 1, m as int), item.offset) {
                    Ok(rest) => {
                        assert(chunks@.map_values(f) =~= chunks_pre.map_values(f).push(c@));
                        assert(chunks_pre.map_values(f) + (seq![c@] + rest) =~= chunks@.map_values(
                            f,
                        ) + rest);
                    },
                    Err(_) => {},
                }
            }
            last = item.offset;
            i = i + 1;
        }
        proof {
            assert(entries.subrange(m as int, m as int) =~= Seq::<IndexEntry>::empty());
            let rest = entries_to_chunks(entries.subrange(m as int, m as int), last).unwrap();
            assert(chunks@.map_values(|c: ChunkData| c@) + rest =~= chunks@.map_values(
                |c: ChunkData| c@,
            ));
        }
        proof {
            let c = parse_index(buf@).unwrap();
            assert(forall|j: int|
                0 <= j < chunks@.len() ==> #[trigger] chunks@[j]@ == chunks@.map_values(
                    |c: ChunkData| c@,
                )[j]);
        }
        Ok(chunks)
    }

/// The little-endian field functions invert each other.
proof fn lemma_u64le(x: u64)
    ensures
        u64le(x).len() == 8,
        spec_u64_from_le_bytes(u64le(x)) == x,
{
    lemma_auto_spec_u64_to_from_le_bytes();
}

/// The encoded header is 64 bytes.
proof fn lemma_encode_header_len(min: u64, avg: u64, max: u64)
    ensures
        encode_header(min, avg, max).len() == 64,
{
    lemma_auto_spec_u64_to_from_le_bytes();
}

/// Each record encodes to 40 bytes.
proof fn lemma_encode_entries_len(items: Seq<IndexEntry>)
    requires
        forall|i: int| 0 <= i < items.len() ==> (#[trigger] items[i]).id.len() == 32,
    ensures
        encode_entries(items).len() == 40 * items.len(),
    decreases items.len(),
{
    if items.len() == 0 {
    } else {
        lemma_u64le(items[0].offset);
        assert(forall|i: int|
            0 <= i < items.drop_first().len() ==> (#[trigger] items.drop_first()[i]).id.len()
                == 32);
        lemma_encode_entries_len(items.drop_first());
    }
}

/// A `u64` written at `pos` is read back at `pos`.
proof fn lemma_parse_u64_at(b: Seq<u8>, pos: int, x: u64)
    requires
        0 <= pos,
        pos + 8 <= b.len(),
        b.subrange(pos, pos + 8) == u64le(x),
    ensures
        parse_u64(b, pos) == x,
{
    lemma_u64le(x);
}

/// Reading the encoded table from its first record recovers the records
/// and stops just after the zero terminator.
proof fn lemma_parse_records_of_encoding(
    b: Seq<u8>,
    pos: int,
    items: Seq<IndexEntry>,
    tail_size: u64,
)
    requires
        0 <= pos,
        b.len() == pos + 40 * items.len() + 40,
        b.subrange(pos, b.len() as int) == encode_entries(items) + encode_tail(tail_size),
        forall|i: int| 0 <= i < items.len() ==> (#[trigger] items[i]).id.len() == 32,
        forall|i: int| 0 <= i < items.len() ==> (#[trigger] items[i]).offset >= 1,
    ensures
        parse_records(b, pos) == Ok::<(Seq<IndexEntry>, int), IndexError>(
            (items, pos + 40 * items.len() + 8),
        ),
    decreases items.len(),
{
    lemma_auto_spec_u64_to_from_le_bytes();
    let whole = b.subrange(pos, b.len() as int);
    if items.len() == 0 {
        assert(whole =~= encode_tail(tail_size));
        assert(b.subrange(pos, pos + 8) =~= u64le(0)) by {
            assert(forall|k: int| 0 <= k < 8 ==> whole[k] == b[pos + k]);
            assert(encode_tail(tail_size).subrange(0, 8) =~= u64le(0));
        }
        lemma_parse_u64_at(b, pos, 0);
        assert(items =~= Seq::<IndexEntry>::empty());
    } else {
        let e = items[0];
        let rest = items.drop_first();
        lemma_encode_entries_len(items);
        lemma_encode_entries_len(rest);
        assert(encode_entries(items) == encode_entry(e) + encode_entries(rest));
        assert(encode_entry(e).len() == 40);
        let ee = encode_entry(e);
        let rt = encode_entries(rest) + encode_tail(tail_size);
        assert(forall|k: int| 0 <= k < whole.len() ==> whole[k] == b[pos + k]);
        assert(whole =~= ee + rt);
        assert(ee == u64le(e.offset) + e.id);
        assert(b.subrange(pos, pos + 8) =~= u64le(e.offset));
        lemma_parse_u64_at(b, pos, e.offset);
        assert(parse_u64(b, pos) != 0);
        assert(pos + 40 <= b.len());
        assert forall|k: int| 0 <= k < 32 implies b.subrange(pos + 8, pos + 40)[k] == e.id[k] by {
            assert(b[pos + 8 + k] == whole[8 + k]);
            assert(whole[8 + k] == (ee + rt)[8 + k]);
            assert((ee + rt)[8 + k] == ee[8 + k]);
            assert(ee[8 + k] == e.id[k]);
        }
        assert(b.subrange(pos + 8, pos + 40) =~= e.id);
        assert forall|k: int| 0 <= k < rt.len() implies b.subrange(pos + 40, b.len() as int)[k]
            == rt[k] by {
            assert(b[pos + 40 + k] == whole[40 + k]);
            assert(whole[40 + k] == (ee + rt)[40 + k]);
            assert((ee + rt)[40 + k] == rt[k]);
        }
        assert(b.subrange(pos + 40, b.len() as int) =~= rt);
        assert(forall|i: int| 0 <= i < rest.len() ==> (#[trigger] rest[i]).id.len() == 32);
        assert(forall|i: int| 0 <= i < rest.len() ==> (#[trigger] rest[i]).offset >= 1);
        lemma_parse_records_of_encoding(b, pos + 40, rest, tail_size);
        let parsed_e = IndexEntry { offset: parse_u64(b, pos), id: b.subrange(pos + 8, pos + 40) };
        assert(parsed_e == e);
        assert(seq![e] + rest =~= items);
        assert(parse_records(b, pos + 40) == Ok::<(Seq<IndexEntry>, int), IndexError>(
            (rest, pos + 40 + 40 * rest.len() + 8),
        ));
        assert(parse_records(b, pos) == Ok::<(Seq<IndexEntry>, int), IndexError>(
            (seq![parsed_e] + rest, pos + 40 + 40 * rest.len() + 8),
        ));
        assert(seq![parsed_e] + rest == items);
        assert(pos + 40 + 40 * rest.len() + 8 == pos + 40 * items.len() + 8);
    }
}

/// With offsets that never decrease, turning records into chunks cannot
/// fail.
proof fn lemma_entries_to_chunks_ok(items: Seq<IndexEntry>, last: u64)
    requires
        forall|i: int| 0 <= i < items.len() ==> (#[trigger] items[i]).offset >= last,
        forall|i: int, j: int|
            0 <= i < j < items.len() ==> (#[trigger] items[i]).offset
                <= (#[trigger] items[j]).offset,
    ensures
        entries_to_chunks(items, last) is Ok,
    decreases items.len(),
{
    if items.len() == 0 {
    } else {
        let rest = items.drop_first();
        assert(forall|i: int|
            0 <= i < rest.len() ==> (#[trigger] rest[i]).offset >= items[0].offset);
        assert(forall|i: int, j: int|
            0 <= i < j < rest.len() ==> (#[trigger] rest[i]).offset
                <= (#[trigger] rest[j]).offset);
        lemma_entries_to_chunks_ok(rest, items[0].offset);
    }
}

/// Index round trip: an index written from any contiguous, ordered record
/// list parses back to exactly the chunk list those records describe, with
/// the chunk-size bounds intact.
pub proof fn lemma_index_round_trip(min: u64, avg: u64, max: u64, items: Seq<IndexEntry>)
    requires
        forall|i: int| 0 <= i < items.len() ==> (#[trigger] items[i]).id.len() == 32,
        forall|i: int| 0 <= i < items.len() ==> (#[trigger] items[i]).offset >= 1,
        forall|i: int, j: int|
            0 <= i < j < items.len() ==> (#[trigger] items[i]).offset
                <= (#[trigger] items[j]).offset,
    ensures
        entries_to_chunks(items, 0) is Ok,
        parse_index(encode_index(min, avg, max, items)) == Ok::<IndexContents, IndexError>(
            IndexContents {
                min,
                avg,
                max,
                chunks: entries_to_chunks(items, 0)->Ok_0,
            },
        ),
{
    lemma_auto_spec_u64_to_from_le_bytes();
    let b = encode_index(min, avg, max, items);
    let h = encode_header(min, avg, max);
    let n = items.len() as int;
    let ts = (56 + 40 * items.len()) as u64;
    lemma_encode_header_len(min, avg, max);
    lemma_encode_entries_len(items);
    assert(encode_tail(ts).len() == 40);
    assert(b.len() == 64 + 40 * n + 40);
    // Header fields parse back.
    assert(b.subrange(8, 16) =~= u64le(CA_FORMAT_INDEX));
    lemma_parse_u64_at(b, 8, CA_FORMAT_INDEX);
    assert(b.subrange(16, 24) =~= u64le(FEATURE_FLAGS));
    lemma_parse_u64_at(b, 16, FEATURE_FLAGS);
    assert(FEATURE_FLAGS & CA_FORMAT_SHA512_256 != 0) by {
        assert(0xa000000000000000u64 & 0x2000000000000000u64 == 0x2000000000000000u64)
            by (bit_vector);
    }
    assert(b.subrange(24, 32) =~= u64le(min));
    lemma_parse_u64_at(b, 24, min);
    assert(b.subrange(32, 40) =~= u64le(avg));
    lemma_parse_u64_at(b, 32, avg);
    assert(b.subrange(40, 48) =~= u64le(max));
    lemma_parse_u64_at(b, 40, max);
    assert(b.subrange(48, 56) =~= u64le(u64::MAX));
    lemma_parse_u64_at(b, 48, u64::MAX);
    assert(b.subrange(56, 64) =~= u64le(CA_FORMAT_TABLE));
    lemma_parse_u64_at(b, 56, CA_FORMAT_TABLE);
    // The table parses back.
    assert(b.subrange(64, b.len() as int) =~= encode_entries(items) + encode_tail(ts));
    lemma_parse_records_of_encoding(b, 64, items, ts);
    let end = 64 + 40 * n + 8;
    // The tail markers are in place.
    assert(end + 32 == b.len());
    assert(b.subrange(end, end + 8) =~= u64le(0)) by {
        assert(forall|k: int|
            0 <= k < 40 ==> b[64 + 40 * n + k] == encode_tail(ts)[k]);
        assert(encode_tail(ts).subrange(8, 16) =~= u64le(0));
    }
    lemma_parse_u64_at(b, end, 0);
    assert(b.subrange(end + 24, end + 32) =~= u64le(CA_FORMAT_TABLE_TAIL_MARKER)) by {
        assert(forall|k: int|
            0 <= k < 40 ==> b[64 + 40 * n + k] == encode_tail(ts)[k]);
        assert(encode_tail(ts).subrange(32, 40) =~= u64le(CA_FORMAT_TABLE_TAIL_MARKER));
    }
    lemma_parse_u64_at(b, end + 24, CA_FORMAT_TABLE_TAIL_MARKER);
    // The records become chunks.
    lemma_entries_to_chunks_ok(items, 0);
}

} // verus!