//! The content-addressed blob store: chunks are keyed by their
//! SHA-512/256 digest, deduplicated by key, and held compressed.
//!
//! The store's mathematical content is a map from 32-byte ids to the raw
//! chunk bytes; the invariant ties every held blob to that map through
//! the named results of the hash and compression calls.

use vstd::prelude::*;

verus! {

use crate::utils::ids_equal;
use crypto::digest::Digest;

/// What the SHA-512/256 digest of a byte sequence is; the result depends
/// on the bytes alone.
pub uninterp spec fn sha512_256_of(bytes: Seq<u8>) -> Seq<u8>;

/// What zstd compression at the store's fixed level produces for a byte
/// sequence; the result depends on the bytes alone.
pub uninterp spec fn zstd_of(bytes: Seq<u8>) -> Seq<u8>;

/// Relies on crypto::sha2::Sha512Trunc256: the digest is a pure function
/// of the input bytes, 32 bytes long.
#[verifier::external_body]
fn sha512_256(bytes: &Vec<u8>) -> (r: [u8; 32])
    ensures
        r@ == sha512_256_of(bytes@),
{
    let mut hasher = crypto::sha2::Sha512Trunc256::new();
    hasher.input(bytes.as_slice());
    let mut out = [0u8; 32];
    hasher.result(&mut out);
    out
}

/// Relies on zstd::stream::encode_all: compressing an in-memory slice
/// into a vector at the fixed, valid level is a pure function of the
/// input bytes and cannot fail (the only error source left is
/// allocation).
#[verifier::external_body]
fn compress_chunk(bytes: &Vec<u8>) -> (r: Vec<u8>)
    ensures
        r@ == zstd_of(bytes@),
{
    zstd::stream::encode_all(bytes.as_slice(), COMPRESSION_LEVEL)
        .expect("in-memory compression does not fail")
}

/// Relies on zstd::stream::decode_all: decoding the output of
/// encode_all yields the bytes that were encoded.
#[verifier::external_body]
fn decompress_chunk(bytes: &Vec<u8>) -> (r: Option<Vec<u8>>)
    ensures
        (exists|orig: Seq<u8>| bytes@ == zstd_of(orig)) ==> r is Some,
        r matches Some(v) ==> forall|orig: Seq<u8>| bytes@ == zstd_of(orig) ==> v@ == orig,
{
    match zstd::stream::decode_all(bytes.as_slice()) {
        Ok(v) => Some(v),
        Err(_) => None,
    }
}

/// The zstd compression level blobs are written with.
pub const COMPRESSION_LEVEL: i32 = 21;

/// Why a store read failed.
#[derive(Clone, Copy, Debug, PartialEq, Eq, Structural)]
pub enum StoreError {
    /// The requested chunk id is not in the store.
    NotFound,
}

/// Running counters for one store: chunks processed, distinct new chunks
/// written, and bytes processed, plus the configured chunk-size bounds.
#[derive(Clone, Copy, Debug, PartialEq, Eq, Structural)]
pub struct StoreStats {
    pub count: u64,
    pub min_size: u64,
    pub max_size: u64,
    pub avg_size: u64,
    pub processed_bytes: u64,
    pub new_chunks_count: u64,
}

/// The counters after one more chunk that was already present.
pub open spec fn stats_after_item(s: StoreStats, bytes: u64) -> StoreStats {
    StoreStats {
        count: (s.count + 1) as u64,
        processed_bytes: (s.processed_bytes + bytes) as u64,
        ..s
    }
}

/// The counters after one more chunk that was newly written.
pub open spec fn stats_after_new_item(s: StoreStats, bytes: u64) -> StoreStats {
    StoreStats {
        count: (s.count + 1) as u64,
        processed_bytes: (s.processed_bytes + bytes) as u64,
        new_chunks_count: (s.new_chunks_count + 1) as u64,
        ..s
    }
}

impl StoreStats {
    pub fn new(min: u64, max: u64, avg: u64) -> (r: StoreStats)
        ensures
            r == (StoreStats {
                count: 0,
                min_size: min,
                max_size: max,
                avg_size: avg,
                processed_bytes: 0,
                new_chunks_count: 0,
            }),
    {
        StoreStats {
            count: 0,
            min_size: min,
            max_size: max,
            avg_size: avg,
            processed_bytes: 0,
            new_chunks_count: 0,
        }
    }

    /// Count one processed chunk that was already in the store.
    pub fn add_item(&mut self, processed_bytes: u64)
        requires
            old(self).processed_bytes + processed_bytes <= u64::MAX,
            old(self).count < u64::MAX,
        ensures
            *final(self) == stats_after_item(*old(self), processed_bytes),
    {
        self.processed_bytes = self.processed_bytes + processed_bytes;
        self.count = self.count + 1;
    }

    /// Count one processed chunk that was newly written.
    pub fn add_new_item(&mut self, processed_bytes: u64)
        requires
            old(self).processed_bytes + processed_bytes <= u64::MAX,
            old(self).count < u64::MAX,
            old(self).new_chunks_count < u64::MAX,
        ensures
            *final(self) == stats_after_new_item(*old(self), processed_bytes),
    {
        self.processed_bytes = self.processed_bytes + processed_bytes;
        self.count = self.count + 1;
        self.new_chunks_count = self.new_chunks_count + 1;
    }
}

/// One stored blob: the chunk's id and its compressed bytes.
pub struct StoreEntry {
    pub id: [u8; 32],
    pub data: Vec<u8>,
}

/// A content-addressed chunk store.
pub trait Store: Sized {
    /// The raw bytes the store holds, by chunk id.
    spec fn contents(&self) -> Map<Seq<u8>, Seq<u8>>;

    /// The store's well-formedness.
    spec fn inv(&self) -> bool;

    /// The running counters.
    spec fn stats_of(&self) -> StoreStats;

    /// Deduplicate, compress and record a chunk; the chunk's content id
    /// is returned unconditionally.  A chunk whose id is already present
    /// is counted but not rewritten.
    fn write_item(&mut self, bytes: Vec<u8>) -> (r: [u8; 32])
        requires
            old(self).inv(),
            old(self).stats_of().processed_bytes + bytes@.len() <= u64::MAX,
            old(self).stats_of().count < u64::MAX,
            old(self).stats_of().new_chunks_count < u64::MAX,
        ensures
            final(self).inv(),
            r@ == sha512_256_of(bytes@),
            old(self).contents().dom().contains(sha512_256_of(bytes@)) ==> {
                &&& final(self).contents() == old(self).contents()
                &&& final(self).stats_of() == stats_after_item(
                    old(self).stats_of(),
                    bytes@.len() as u64,
                )
            },
            !old(self).contents().dom().contains(sha512_256_of(bytes@)) ==> {
                &&& final(self).contents() == old(self).contents().insert(
                    sha512_256_of(bytes@),
                    bytes@,
                )
                &&& final(self).stats_of() == stats_after_new_item(
                    old(self).stats_of(),
                    bytes@.len() as u64,
                )
            },
    ;

    /// Fetch and decompress the chunk with the given id.
    fn read_item(&mut self, id: Vec<u8>) -> (r: Result<Vec<u8>, StoreError>)
        requires
            old(self).inv(),
        ensures
            *final(self) == *old(self),
            old(self).contents().dom().contains(id@) ==> (r matches Ok(v)
                && v@ == old(self).contents()[id@]),
            !old(self).contents().dom().contains(id@) ==> r == Err::<Vec<u8>, StoreError>(
                StoreError::NotFound,
            ),
    ;
}

/// A store held in memory: a list of compressed blobs with distinct ids.
/// The ghost `contents` map carries the raw bytes each blob encodes.
pub struct LocalStore {
    pub path: String,
    pub stats: StoreStats,
    pub entries: Vec<StoreEntry>,
    pub contents: Ghost<Map<Seq<u8>, Seq<u8>>>,
}

impl LocalStore {
    pub fn new(path: &str, min: u64, max: u64, avg: u64) -> (r: LocalStore)
        ensures
            r.inv(),
            r.contents() == Map::<Seq<u8>, Seq<u8>>::empty(),
            r.stats_of() == StoreStats::new_spec(min, max, avg),
            r.path@ == path@,
            r.entries@.len() == 0,
    {
        let r = LocalStore {
            path: path.to_owned(),
            stats: StoreStats::new(min, max, avg),
            entries: Vec::new(),
            contents: Ghost(Map::empty()),
        };
        proof {
            assert forall|id: Seq<u8>| r.contents().dom().contains(id) implies exists|i: int|
                0 <= i < r.entries@.len() && r.entries@[i].id@ == id by {}
        }
        r
    }

    /// The path name the store would use for a shard directory: the store
    /// root, a separator, and the shard name.
    pub fn create(&self, sub: &str) -> (r: String)
        ensures
            r@ == joined_path(self.path@, sub@),
    {
        let mut r = self.path.clone();
        if sub.unicode_len() == 0 {
            proof {
                assert(r@ =~= joined_path(self.path@, sub@));
            }
            r
        } else {
            r.append("/");
            r.append(sub);
            proof {
                reveal_strlit("/");
                assert(r@ =~= joined_path(self.path@, sub@));
            }
            r
        }
    }
}

/// A store root joined with a subdirectory name.
pub open spec fn joined_path(base: Seq<char>, sub: Seq<char>) -> Seq<char> {
    if sub.len() == 0 {
        base
    } else {
        base + seq!['/'] + sub
    }
}

impl StoreStats {
    /// The counters a fresh store starts with.
    pub open spec fn new_spec(min: u64, max: u64, avg: u64) -> StoreStats {
        StoreStats {
            count: 0,
            min_size: min,
            max_size: max,
            avg_size: avg,
            processed_bytes: 0,
            new_chunks_count: 0,
        }
    }
}

impl Store for LocalStore {
    closed spec fn contents(&self) -> Map<Seq<u8>, Seq<u8>> {
        self.contents@
    }

    closed spec fn inv(&self) -> bool {
        &&& forall|i: int|
            0 <= i < self.entries@.len() ==> {
                let id = #[trigger] self.entries@[i].id@;
                &&& self.contents@.dom().contains(id)
                &&& self.entries@[i].data@ == zstd_of(self.contents@[id])
                &&& sha512_256_of(self.contents@[id]) == id
            }
        &&& forall|id: Seq<u8>|
            #[trigger] self.contents@.dom().contains(id) ==> exists|i: int|
                0 <= i < self.entries@.len() && self.entries@[i].id@ == id
        &&& forall|i: int, j: int|
            0 <= i < j < self.entries@.len() ==> #[trigger] self.entries@[i].id@ != #[trigger] self.entries@[j].id@
    }

    closed spec fn stats_of(&self) -> StoreStats {
        self.stats
    }

    #[verifier::rlimit(50)]
    fn write_item(&mut self, bytes: Vec<u8>) -> (r: [u8; 32]) {
        let id = sha512_256(&bytes);
        if let Some(at) = find_entry(&self.entries, &id) {
            proof {
                assert(self.contents@.dom().contains(id@));
            }
            self.stats.add_item(bytes.len() as u64);
            proof {
                assert(self.entries@ == old(self).entries@);
                assert(self.contents@ == old(self).contents@);
                assert(self.inv());
            }
            id
        } else {
            proof {
                if self.contents@.dom().contains(id@) {
                    let w = choose|w: int|
                        0 <= w < self.entries@.len() && self.entries@[w].id@ == id@;
                    assert(false);
                }
            }
            let data = compress_chunk(&bytes);
            self.insert_new_entry(id, &bytes, data);
            let ghost mid = *self;
            self.stats.add_new_item(bytes.len() as u64);
            proof {
                assert(self.entries@ == mid.entries@);
                assert(self.contents@ == mid.contents@);
                assert(mid.inv());
                assert(self.inv());
            }
            id
        }
    }

    fn read_item(&mut self, id: Vec<u8>) -> (r: Result<Vec<u8>, StoreError>) {
        self.lookup_item(id)
    }
}

impl LocalStore {
    /// Record a chunk that is not yet present: its compressed blob joins
    /// the entry list and the ghost contents gain the raw bytes.
    fn insert_new_entry(&mut self, id: [u8; 32], bytes: &Vec<u8>, data: Vec<u8>)
        requires
            old(self).inv(),
            !old(self).contents().dom().contains(id@),
            id@ == sha512_256_of(bytes@),
            data@ == zstd_of(bytes@),
        ensures
            final(self).inv(),
            final(self).contents() == old(self).contents().insert(id@, bytes@),
            final(self).stats == old(self).stats,
            final(self).path == old(self).path,
    {
        let ghost pre = *self;
        self.entries.push(StoreEntry { id, data });
        self.contents = Ghost(self.contents@.insert(id@, bytes@));
        proof {
            let es = self.entries@;
            let m = es.len() as int;
            assert forall|k: int| 0 <= k < m implies {
                let eid = #[trigger] es[k].id@;
                &&& self.contents@.dom().contains(eid)
                &&& es[k].data@ == zstd_of(self.contents@[eid])
                &&& sha512_256_of(self.contents@[eid]) == eid
            } by {
                if k < m - 1 {
                    assert(es[k] == pre.entries@[k]);
                    assert(es[k].id@ != id@);
                    assert(pre.contents@.dom().contains(es[k].id@));
                } else {
                    assert(es[k].id@ == id@);
                }
            }
            assert forall|cid: Seq<u8>| #[trigger] self.contents@.dom().contains(cid) implies exists|
                w: int,
            | 0 <= w < es.len() && es[w].id@ == cid by {
                if cid == id@ {
                    assert(es[m - 1].id@ == cid);
                } else {
                    assert(pre.contents@.dom().contains(cid));
                    let w = choose|w: int|
                        0 <= w < pre.entries@.len() && pre.entries@[w].id@ == cid;
                    assert(es[w] == pre.entries@[w]);
                    assert(es[w].id@ == cid);
                }
            }
            assert forall|a: int, b: int| 0 <= a < b < m implies #[trigger] es[a].id@
                != #[trigger] es[b].id@ by {
                if b < m - 1 {
                    assert(es[a] == pre.entries@[a]);
                    assert(es[b] == pre.entries@[b]);
                } else {
                    assert(es[a] == pre.entries@[a]);
                    assert(es[b].id@ == id@);
                }
            }
        }
    }

    /// Look a chunk up by id and decompress it.
    fn lookup_item(&mut self, id: Vec<u8>) -> (r: Result<Vec<u8>, StoreError>)
        requires
            old(self).inv(),
        ensures
            *final(self) == *old(self),
            old(self).contents().dom().contains(id@) ==> (r matches Ok(v) && v@ == old(
                self,
            ).contents()[id@]),
            !old(self).contents().dom().contains(id@) ==> r == Err::<Vec<u8>, StoreError>(
                StoreError::NotFound,
            ),
    {
        if id.len() != 32 {
            proof {
                if self.contents@.dom().contains(id@) {
                    let w = choose|w: int|
                        0 <= w < self.entries@.len() && self.entries@[w].id@ == id@;
                    assert(self.entries@[w].id@.len() == 32);
                    assert(false);
                }
            }
            return Err(StoreError::NotFound);
        }
        let id32 = crate::utils::read_32_bytes(&id, 0);
        proof {
            assert(id32@ =~= id@);
        }
        match find_entry(&self.entries, &id32) {
            Some(at) => {
                let entry_data = &self.entries[at].data;
                proof {
                    assert(self.entries@[at as int].data@ == zstd_of(self.contents@[id@]));
                }
                match decompress_chunk(entry_data) {
                    Some(v) => Ok(v),
                    None => {
                        proof {
                            assert(entry_data@ == zstd_of(self.contents@[id@]));
                            assert(false);
                        }
                        Err(StoreError::NotFound)
                    },
                }
            },
            None => {
                proof {
                    if self.contents@.dom().contains(id@) {
                        let w = choose|w: int|
                            0 <= w < self.entries@.len() && self.entries@[w].id@ == id@;
                        assert(false);
                    }
                }
                Err(StoreError::NotFound)
            },
        }
    }
}

/// The position of the entry with the given id, if the store holds one.
fn find_entry(entries: &Vec<StoreEntry>, id: &[u8; 32]) -> (r: Option<usize>)
    ensures
        match r {
            Some(at) => at < entries@.len() && entries@[at as int].id@ == id@,
            None => forall|j: int| 0 <= j < entries@.len() ==> #[trigger] entries@[j].id@ != id@,
        },
{
    let mut i: usize = 0;
    let n = entries.len();
    while i < n
        invariant
            n == entries@.len(),
            i <= n,
            forall|j: int| 0 <= j < i ==> #[trigger] entries@[j].id@ != id@,
        decreases n - i,
    {
        if ids_equal(&entries[i].id, id) {
            return Some(i);
        }
        i = i + 1;
    }
    None
}

} // verus!
