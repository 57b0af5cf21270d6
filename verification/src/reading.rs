//! What rows say: decoding a version's metadata and reassembling its content.

use crate::bytes;
use crate::chunking;
use crate::clock::{ReplicaId, VectorClock};
use crate::codec;
use crate::digest;
use crate::history;
use crate::history::{
    ChunkModel, ChunkRow, Fault, HistoryError, Origin, VersionId, VersionModel, VersionRow,
};
use crate::index::{ContentHash, ContentSig, EntryState};
use crate::path;
use crate::path::RelPath;
use crate::text;
use vstd::prelude::*;

verus! {

// ---- metadata --------------------------------------------------------------
/// Metadata for one version.
///
/// `content_hash` and `size` mirror the signature of a present state.
#[derive(Debug, Clone, PartialEq, Eq)]
pub struct VersionMeta {
    /// The version's identifier.
    pub id: VersionId,
    /// Present (with content) or tombstone.
    pub state: EntryState,
    /// The whole-file content hash, if recorded.
    pub content_hash: Option<ContentHash>,
    /// The file size in bytes, if recorded.
    pub size: Option<u64>,
    /// The vector clock at which this version was recorded.
    pub clock: VectorClock,
    /// The replica that authored this version.
    pub replica: ReplicaId,
    /// Wall-clock milliseconds since the Unix epoch, for display only.
    pub wall_ms: u64,
    /// Whether the version was authored locally or received from the peer.
    pub origin: Origin,
}

/// A version's metadata as a mathematical value.
#[verifier::ext_equal]
pub ghost struct MetaModel {
    /// The version's identifier.
    pub id: VersionId,
    /// Present (with content) or tombstone.
    pub state: EntryState,
    /// The whole-file content hash, if recorded.
    pub content_hash: Option<ContentHash>,
    /// The file size in bytes, if recorded.
    pub size: Option<u64>,
    /// The listed counters of the clock.
    pub clock: Seq<(u64, u64)>,
    /// The replica that authored this version.
    pub replica: ReplicaId,
    /// Wall-clock milliseconds since the Unix epoch.
    pub wall_ms: u64,
    /// Whether the version was authored locally or received from the peer.
    pub origin: Origin,
}

impl View for VersionMeta {
    type V = MetaModel;

    open spec fn view(&self) -> MetaModel {
        MetaModel {
            id: self.id,
            state: self.state,
            content_hash: self.content_hash,
            size: self.size,
            clock: self.clock@,
            replica: self.replica,
            wall_ms: self.wall_ms,
            origin: self.origin,
        }
    }
}

/// The content hash with the given bytes, where there are 32.
pub open spec fn hash_of(b: Seq<u8>) -> Option<ContentHash> {
    if b.len() == 32 {
        Some(ContentHash(codec::array_of(b)))
    } else {
        None
    }
}

/// The content hash with the given bytes, where there are 32.
pub fn to_hash32(b: &[u8]) -> (h: Option<ContentHash>)
    ensures
        h == hash_of(b@),
        h is Some ==> h->Some_0.0@ == b@,
{
    if b.len() != 32 {
        return None;
    }
    let mut a: [u8; 32] = [0u8;32];
    let mut i: usize = 0;
    while i < 32
        invariant
            i <= 32,
            b@.len() == 32,
            forall|j: int| 0 <= j < i ==> a@[j] == b@[j],
        decreases 32 - i,
    {
        a[i] = b[i];
        i = i + 1;
    }
    assert(a@ =~= b@);
    proof {
        codec::array_of_view(a);
    }
    Some(ContentHash(a))
}

/// Says that a version's recorded hash does not have 32 bytes.
pub open spec fn bad_hash_text(id: i64, n: nat) -> Seq<char> {
    "version "@ + text::integer(id as int) + " content_hash is "@ + text::decimal(n)
        + " bytes, expected 32"@
}

/// Says that a present version lacks something.
pub open spec fn lacking_text(id: i64, what: Seq<char>) -> Seq<char> {
    "present version "@ + text::integer(id as int) + " has no "@ + what
}

/// Says that a version's recorded hash does not have 32 bytes.
fn bad_hash(id: i64, n: usize) -> (e: HistoryError)
    ensures
        e@ == Fault::Malformed(bad_hash_text(id, n as nat)),
{
    let mut v: Vec<char> = Vec::new();
    text::push_text(&mut v, "version ");
    history::push_integer(&mut v, id);
    text::push_text(&mut v, " content_hash is ");
    history::push_number(&mut v, n as u64);
    text::push_text(&mut v, " bytes, expected 32");
    assert(v@ =~= bad_hash_text(id, n as nat));
    HistoryError::Malformed(text::string_of(v.as_slice()))
}

/// Says that a present version lacks something.
fn lacking(id: i64, what: &str) -> (e: HistoryError)
    ensures
        e@ == Fault::Malformed(lacking_text(id, what@)),
{
    let mut v: Vec<char> = Vec::new();
    text::push_text(&mut v, "present version ");
    history::push_integer(&mut v, id);
    text::push_text(&mut v, " has no ");
    text::push_text(&mut v, what);
    assert(v@ =~= lacking_text(id, what@));
    HistoryError::Malformed(text::string_of(v.as_slice()))
}

/// The state that a row records: a tombstone, or present with a hash and a size.
pub open spec fn state_of(v: VersionModel, h: Option<ContentHash>) -> Result<EntryState, Fault> {
    if v.state == 0 {
        Ok(EntryState::Tombstone)
    } else {
        match (h, v.size) {
            (None, _) => Err(Fault::Malformed(lacking_text(v.id, "hash"@))),
            (_, None) => Err(Fault::Malformed(lacking_text(v.id, "size"@))),
            (Some(hash), Some(n)) => Ok(
                EntryState::Present(
                    ContentSig {
                        hash,
                        size: history::from_sql(n),
                        exec_bit: v.exec_bit != 0,
                        mtime_ms: 0,
                    },
                ),
            ),
        }
    }
}

/// What a version row says, or what is wrong with it: its clock, its hash, or
/// what a present version needs, in this order. The modification time is not
/// recorded and reads as 0.
pub open spec fn meta_of(v: VersionModel) -> Result<MetaModel, Fault> {
    match codec::read_version(v.clock) {
        Err(cause) => Err(Fault::Clock(cause)),
        Ok((clock, _)) => {
            let hash = match v.content_hash {
                Some(b) => hash_of(b),
                None => None,
            };
            if v.content_hash is Some && hash is None {
                Err(Fault::Malformed(bad_hash_text(v.id, v.content_hash->Some_0.len())))
            } else {
                match state_of(v, hash) {
                    Err(e) => Err(e),
                    Ok(state) => Ok(
                        MetaModel {
                            id: VersionId(v.id),
                            state,
                            content_hash: hash,
                            size: match v.size {
                                Some(n) => Some(history::from_sql(n)),
                                None => None,
                            },
                            clock,
                            replica: ReplicaId(history::from_sql(v.replica)),
                            wall_ms: history::from_sql(v.wall_ms),
                            origin: Origin::of(v.origin),
                        },
                    ),
                }
            }
        },
    }
}

/// A result by the views of its parts.
pub open spec fn meta_result(r: Result<VersionMeta, HistoryError>) -> Result<MetaModel, Fault> {
    match r {
        Ok(m) => Ok(m@),
        Err(e) => Err(e@),
    }
}

impl VersionRow {
    /// Decode the row, reconstructing the state and the vector clock.
    pub fn to_meta(&self) -> (r: Result<VersionMeta, HistoryError>)
        ensures
            meta_result(r) == meta_of(self@),
    {
        let clock = match codec::take_version(self.clock.as_slice()) {
            Ok((c, _)) => c,
            Err(cause) => {
                return Err(HistoryError::Clock(cause));
            },
        };
        let content_hash: Option<ContentHash> = match &self.content_hash {
            Some(b) => match to_hash32(b.as_slice()) {
                Some(h) => Some(h),
                None => {
                    return Err(bad_hash(self.id, b.len()));
                },
            },
            None => None,
        };
        let size: Option<u64> = match self.size {
            Some(n) => Some(history::from_sql_int(n)),
            None => None,
        };
        let state = if self.state == 0 {
            EntryState::Tombstone
        } else {
            let hash = match content_hash {
                Some(h) => h,
                None => {
                    return Err(lacking(self.id, "hash"));
                },
            };
            let size: u64 = match size {
                Some(n) => n,
                None => {
                    return Err(lacking(self.id, "size"));
                },
            };
            EntryState::Present(
                ContentSig { hash, size, exec_bit: self.exec_bit != 0, mtime_ms: 0 },
            )
        };
        Ok(
            VersionMeta {
                id: VersionId(self.id),
                state,
                content_hash,
                size,
                clock,
                replica: ReplicaId(history::from_sql_int(self.replica)),
                wall_ms: history::from_sql_int(self.wall_ms),
                origin: Origin::from_i64(self.origin),
            },
        )
    }
}

// ---- stored paths ----------------------------------------------------------
/// The stored path, or what is wrong with it. `kind` says what it is the path of.
pub open spec fn path_of(kind: Seq<char>, s: Seq<char>) -> Result<Seq<char>, Fault> {
    match path::path_error(s) {
        None => Ok(s),
        Some(e) => Err(
            Fault::Malformed("stored "@ + kind + " path "@ + text::debug_text(s) + ": "@ + e.text()),
        ),
    }
}

/// The stored path, or what is wrong with it.
pub fn stored_path(kind: &str, s: &str) -> (r: Result<RelPath, HistoryError>)
    ensures
        match r {
            Ok(p) => path_of(kind@, s@) == Ok::<Seq<char>, Fault>(p@),
            Err(e) => path_of(kind@, s@) == Err::<Seq<char>, Fault>(e@),
        },
{
    match RelPath::new(s) {
        Ok(p) => Ok(p),
        Err(e) => {
            let q = text::quoted(s);
            let mut v: Vec<char> = Vec::new();
            text::push_text(&mut v, "stored ");
            text::push_text(&mut v, kind);
            text::push_text(&mut v, " path ");
            text::push_text(&mut v, q.as_str());
            text::push_text(&mut v, ": ");
            text::push_text(&mut v, e.message());
            assert(v@ =~= "stored "@ + kind@ + " path "@ + text::debug_text(s@) + ": "@ + e.text());
            Err(HistoryError::Malformed(text::string_of(v.as_slice())))
        },
    }
}

// ---- chunks ----------------------------------------------------------------
/// Says that a chunk unpacks to the wrong number of bytes.
pub open spec fn bad_size_text(n: nat, size: u64) -> Seq<char> {
    "size "@ + text::decimal(n) + " != recorded "@ + text::decimal(size as nat)
}

/// The plain bytes of a packed chunk, or what is wrong with it: it does not
/// unpack, or it has another size, or another digest than its key.
pub open spec fn unpacked(hash: Seq<u8>, size: u64, zdata: Seq<u8>) -> Result<Seq<u8>, Fault> {
    let key = bytes::hex_text(hash);
    match chunking::zstd_plain(zdata) {
        Err(e) => Err(Fault::CorruptChunk { hash: key, detail: "decompression failed: "@ + e }),
        Ok(plain) => if plain.len() != size {
            Err(Fault::CorruptChunk { hash: key, detail: bad_size_text(plain.len(), size) })
        } else if digest::blake3_of(plain) != hash {
            Err(
                Fault::CorruptChunk {
                    hash: key,
                    detail: "content hashes to "@ + bytes::hex_text(digest::blake3_of(plain)),
                },
            )
        } else {
            Ok(plain)
        },
    }
}

/// Unpack a chunk and verify it against its size and its key.
pub fn decompress_and_verify(hash: &[u8], size: u64, zdata: &[u8]) -> (r: Result<
    Vec<u8>,
    HistoryError,
>)
    ensures
        match r {
            Ok(plain) => unpacked(hash@, size, zdata@) == Ok::<Seq<u8>, Fault>(plain@),
            Err(e) => unpacked(hash@, size, zdata@) == Err::<Seq<u8>, Fault>(e@),
        },
{
    let plain = match chunking::unpack(zdata) {
        Ok(p) => p,
        Err(e) => {
            let mut v: Vec<char> = Vec::new();
            text::push_text(&mut v, "decompression failed: ");
            text::push_text(&mut v, e.as_str());
            assert(v@ =~= "decompression failed: "@ + e@);
            return Err(
                HistoryError::CorruptChunk {
                    hash: bytes::hex_of(hash),
                    detail: text::string_of(v.as_slice()),
                },
            );
        },
    };
    if plain.len() as u64 != size {
        let mut v: Vec<char> = Vec::new();
        text::push_text(&mut v, "size ");
        history::push_number(&mut v, plain.len() as u64);
        text::push_text(&mut v, " != recorded ");
        history::push_number(&mut v, size);
        assert(v@ =~= bad_size_text(plain@.len(), size));
        return Err(
            HistoryError::CorruptChunk {
                hash: bytes::hex_of(hash),
                detail: text::string_of(v.as_slice()),
            },
        );
    }
    let actual = digest::content_hash(plain.as_slice());
    if !bytes::same_bytes(actual.0.as_slice(), hash) {
        let mut v: Vec<char> = Vec::new();
        text::push_text(&mut v, "content hashes to ");
        let h = actual.to_hex();
        text::push_text(&mut v, h.as_str());
        assert(v@ =~= "content hashes to "@ + bytes::hex_text(actual.0@));
        return Err(
            HistoryError::CorruptChunk {
                hash: bytes::hex_of(hash),
                detail: text::string_of(v.as_slice()),
            },
        );
    }
    Ok(plain)
}

/// The rows of a table by their views.
pub open spec fn chunk_models(rows: Seq<ChunkRow>) -> Seq<ChunkModel> {
    Seq::new(rows.len(), |i: int| rows[i]@)
}

/// The position of the first chunk at or after `i` with the given key, or the
/// number of chunks.
pub open spec fn find_chunk(chunks: Seq<ChunkModel>, hash: Seq<u8>, i: int) -> int
    decreases chunks.len() - i,
{
    if i >= chunks.len() {
        chunks.len() as int
    } else if chunks[i].hash == hash {
        i
    } else {
        find_chunk(chunks, hash, i + 1)
    }
}

/// The chunk with the given key.
pub open spec fn chunk_at(chunks: Seq<ChunkModel>, hash: Seq<u8>) -> Option<ChunkModel> {
    let i = find_chunk(chunks, hash, 0);
    if i < chunks.len() {
        Some(chunks[i])
    } else {
        None
    }
}

/// What `find_chunk` finds: the first row with the key.
pub proof fn find_chunk_spec(chunks: Seq<ChunkModel>, hash: Seq<u8>, i: int)
    requires
        0 <= i <= chunks.len(),
    ensures
        i <= find_chunk(chunks, hash, i) <= chunks.len(),
        find_chunk(chunks, hash, i) < chunks.len() ==> chunks[find_chunk(chunks, hash, i)].hash
            == hash,
        forall|j: int| i <= j < find_chunk(chunks, hash, i) ==> (#[trigger] chunks[j]).hash != hash,
    decreases chunks.len() - i,
{
    if i < chunks.len() && chunks[i].hash != hash {
        find_chunk_spec(chunks, hash, i + 1);
    }
}

/// The position of the chunk with the given key, if it is there.
pub fn position_of_chunk(chunks: &Vec<ChunkRow>, hash: &[u8]) -> (r: Option<usize>)
    ensures
        match r {
            Some(i) => i < chunks@.len() && i == find_chunk(chunk_models(chunks@), hash@, 0),
            None => find_chunk(chunk_models(chunks@), hash@, 0) == chunks@.len(),
        },
{
    let ghost model = chunk_models(chunks@);
    let mut i: usize = 0;
    while i < chunks.len()
        invariant
            i <= chunks@.len(),
            model == chunk_models(chunks@),
            find_chunk(model, hash@, 0) == find_chunk(model, hash@, i as int),
        decreases chunks@.len() - i,
    {
        assert(model[i as int] == chunks@[i as int]@);
        if bytes::same_bytes(chunks[i].hash.as_slice(), hash) {
            return Some(i);
        }
        i = i + 1;
    }
    None
}

// ---- content ---------------------------------------------------------------
/// The keys that a manifest lists: one for each 32 bytes.
pub open spec fn keys(manifest: Seq<u8>) -> Seq<Seq<u8>> {
    Seq::new(manifest.len() / 32, |i: int| manifest.subrange(32 * i, 32 * i + 32))
}

/// The plain bytes of the chunk with the given key, for a version.
pub open spec fn plain_of(version: i64, hash: Seq<u8>, chunks: Seq<ChunkModel>) -> Result<
    Seq<u8>,
    Fault,
> {
    match chunk_at(chunks, hash) {
        None => Err(Fault::MissingChunk { version, hash: bytes::hex_text(hash) }),
        Some(c) => unpacked(hash, history::from_sql(c.size), c.zdata),
    }
}

/// The chunks with the given keys, unpacked, one after the other; or the first
/// thing that is wrong with one.
pub open spec fn assembled(version: i64, ks: Seq<Seq<u8>>, chunks: Seq<ChunkModel>) -> Result<
    Seq<u8>,
    Fault,
>
    decreases ks.len(),
{
    if ks.len() == 0 {
        Ok(seq![])
    } else {
        match assembled(version, ks.drop_last(), chunks) {
            Err(e) => Err(e),
            Ok(done) => match plain_of(version, ks.last(), chunks) {
                Err(e) => Err(e),
                Ok(p) => Ok(done + p),
            },
        }
    }
}

/// Says that a manifest's length is no multiple of 32.
pub open spec fn bad_manifest_text(version: i64, n: nat) -> Seq<char> {
    "version "@ + text::integer(version as int) + " manifest length "@ + text::decimal(n)
        + " is not a multiple of 32"@
}

/// The content that was put together, where it has the recorded hash.
pub open spec fn confirmed(version: i64, recorded: Seq<u8>, content: Seq<u8>) -> Result<
    Seq<u8>,
    Fault,
> {
    if recorded.len() != 32 {
        Err(Fault::Malformed(bad_hash_text(version, recorded.len())))
    } else if digest::blake3_of(content) != recorded {
        Err(
            Fault::ContentMismatch {
                version,
                expected: bytes::hex_text(recorded),
                actual: bytes::hex_text(digest::blake3_of(content)),
            },
        )
    } else {
        Ok(content)
    }
}

/// The content of a version, or the first thing that is wrong: it is a tombstone,
/// it lacks a hash or a manifest, its manifest has a wrong length, a chunk is
/// missing or corrupt, or the whole does not have the recorded hash.
pub open spec fn content_of(v: VersionModel, chunks: Seq<ChunkModel>) -> Result<Seq<u8>, Fault> {
    if v.state == 0 {
        Err(Fault::NotPresent(v.id))
    } else {
        match (v.content_hash, v.manifest) {
            (None, _) => Err(Fault::Malformed(lacking_text(v.id, "hash"@))),
            (_, None) => Err(Fault::Malformed(lacking_text(v.id, "manifest"@))),
            (Some(h), Some(m)) => if m.len() % 32 != 0 {
                Err(Fault::Malformed(bad_manifest_text(v.id, m.len())))
            } else {
                match assembled(v.id, keys(m), chunks) {
                    Err(e) => Err(e),
                    Ok(content) => confirmed(v.id, h, content),
                }
            },
        }
    }
}

/// A result as bytes or a fault.
pub open spec fn bytes_result(r: Result<Vec<u8>, HistoryError>) -> Result<Seq<u8>, Fault> {
    match r {
        Ok(b) => Ok(b@),
        Err(e) => Err(e@),
    }
}

fn assemble(version: i64, manifest: &[u8], chunks: &Vec<ChunkRow>) -> (r: Result<
    Vec<u8>,
    HistoryError,
>)
    requires
        manifest@.len() % 32 == 0,
    ensures
        bytes_result(r) == assembled(version, keys(manifest@), chunk_models(chunks@)),
{
    let ghost model = chunk_models(chunks@);
    let ghost ks = keys(manifest@);
    let total: usize = manifest.len();
    let n: usize = total / 32;
    let mut out: Vec<u8> = Vec::new();
    let mut i: usize = 0;
    assert(ks.take(0) =~= Seq::<Seq<u8>>::empty());
    while i < n
        invariant
            i <= n,
            total == manifest@.len(),
            n == total / 32,
            ks == keys(manifest@),
            model == chunk_models(chunks@),
            assembled(version, ks.take(i as int), model) == Ok::<Seq<u8>, Fault>(out@),
        decreases n - i,
    {
        let hash = bytes::copy_bytes(manifest, 32 * i, 32 * i + 32);
        assert(hash@ == ks[i as int]);
        proof {
            assert(ks.take(i + 1).drop_last() =~= ks.take(i as int));
            assert(ks.take(i + 1).last() == hash@);
        }
        let at = position_of_chunk(chunks, hash.as_slice());
        match at {
            None => {
                proof {
                    assembled_error(version, ks, model, i + 1);
                }
                return Err(
                    HistoryError::MissingChunk { version, hash: bytes::hex_of(hash.as_slice()) },
                );
            },
            Some(k) => {
                assert(model[k as int] == chunks@[k as int]@);
                let row = &chunks[k];
                match decompress_and_verify(
                    hash.as_slice(),
                    history::from_sql_int(row.size),
                    row.zdata.as_slice(),
                ) {
                    Err(e) => {
                        proof {
                            assembled_error(version, ks, model, i + 1);
                        }
                        return Err(e);
                    },
                    Ok(plain) => {
                        bytes::push_bytes(&mut out, plain.as_slice());
                    },
                }
            },
        }
        i = i + 1;
    }
    assert(ks.take(n as int) =~= ks);
    Ok(out)
}

/// What is wrong with a prefix is wrong with the whole.
proof fn assembled_error(version: i64, ks: Seq<Seq<u8>>, chunks: Seq<ChunkModel>, k: int)
    requires
        0 <= k <= ks.len(),
        assembled(version, ks.take(k), chunks) is Err,
    ensures
        assembled(version, ks, chunks) == assembled(version, ks.take(k), chunks),
    decreases ks.len() - k,
{
    if k < ks.len() {
        assert(ks.take(k + 1).drop_last() =~= ks.take(k));
        assembled_error(version, ks, chunks, k + 1);
    } else {
        assert(ks.take(k) =~= ks);
    }
}

impl VersionRow {
    /// Reassemble, unpack and verify the content of this version from `chunks`.
    pub fn content(&self, chunks: &Vec<ChunkRow>) -> (r: Result<Vec<u8>, HistoryError>)
        ensures
            bytes_result(r) == content_of(self@, chunk_models(chunks@)),
    {
        if self.state == 0 {
            return Err(HistoryError::NotPresent(self.id));
        }
        let recorded = match &self.content_hash {
            Some(h) => h,
            None => {
                return Err(lacking(self.id, "hash"));
            },
        };
        let manifest = match &self.manifest {
            Some(m) => m,
            None => {
                return Err(lacking(self.id, "manifest"));
            },
        };
        if manifest.len() % 32 != 0 {
            let mut v: Vec<char> = Vec::new();
            text::push_text(&mut v, "version ");
            history::push_integer(&mut v, self.id);
            text::push_text(&mut v, " manifest length ");
            history::push_number(&mut v, manifest.len() as u64);
            text::push_text(&mut v, " is not a multiple of 32");
            assert(v@ =~= bad_manifest_text(self.id, manifest@.len()));
            return Err(HistoryError::Malformed(text::string_of(v.as_slice())));
        }
        let out = match assemble(self.id, manifest.as_slice(), chunks) {
            Ok(out) => out,
            Err(e) => {
                return Err(e);
            },
        };
        let actual = digest::content_hash(out.as_slice());
        if recorded.len() != 32 {
            return Err(bad_hash(self.id, recorded.len()));
        }
        if !bytes::same_bytes(actual.0.as_slice(), recorded.as_slice()) {
            return Err(
                HistoryError::ContentMismatch {
                    version: self.id,
                    expected: bytes::hex_of(recorded.as_slice()),
                    actual: actual.to_hex(),
                },
            );
        }
        Ok(out)
    }
}

} // verus!
