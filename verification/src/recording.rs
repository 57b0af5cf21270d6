//! What is to be recorded: packing a content into chunks, and the row of a
//! version.

use crate::bytes;
use crate::chunking;
use crate::clock::{ReplicaId, VectorClock};
use crate::codec;
use crate::digest;
use crate::history;
use crate::history::{ChunkModel, ChunkRow, Fault, HistoryError, Origin, VersionModel, VersionRow};
use crate::index::{ContentHash, ContentSig, EntryState};
use crate::path::RelPath;
use crate::reading;
use crate::text;
use vstd::prelude::*;

verus! {

/// One version to record.
#[derive(Debug, Clone, Copy)]
pub struct VersionRecord<'a> {
    /// The path that this version belongs to.
    pub path: &'a RelPath,
    /// Present (with content) or tombstone.
    pub state: &'a EntryState,
    /// The vector clock at which this version is recorded.
    pub clock: &'a VectorClock,
    /// The authoring replica, for display only.
    pub replica: ReplicaId,
    /// Whether authored locally or received from the peer.
    pub origin: Origin,
    /// Wall-clock milliseconds since the Unix epoch, for display only.
    pub wall_ms: u64,
    /// The content (required for a present state, ignored for a tombstone).
    pub bytes: Option<&'a [u8]>,
}

/// A version to record as a mathematical value.
pub ghost struct RecordModel {
    /// The path that this version belongs to.
    pub path: Seq<char>,
    /// Present (with content) or tombstone.
    pub state: EntryState,
    /// The listed counters of the clock.
    pub clock: Seq<(u64, u64)>,
    /// The authoring replica.
    pub replica: ReplicaId,
    /// Whether authored locally or received from the peer.
    pub origin: Origin,
    /// Wall-clock milliseconds since the Unix epoch.
    pub wall_ms: u64,
    /// The content.
    pub bytes: Option<Seq<u8>>,
}

impl<'a> View for VersionRecord<'a> {
    type V = RecordModel;

    open spec fn view(&self) -> RecordModel {
        RecordModel {
            path: self.path@,
            state: *self.state,
            clock: self.clock@,
            replica: self.replica,
            origin: self.origin,
            wall_ms: self.wall_ms,
            bytes: match self.bytes {
                Some(b) => Some(b@),
                None => None,
            },
        }
    }
}

// ---- packing ---------------------------------------------------------------
/// The text of the first error in packing the pieces, if there is one.
pub open spec fn pack_error(ps: Seq<Seq<u8>>) -> Option<Seq<char>>
    decreases ps.len(),
{
    if ps.len() == 0 {
        None
    } else {
        match pack_error(ps.drop_last()) {
            Some(e) => Some(e),
            None => match chunking::zstd_packed(ps.last(), chunking::ZSTD_LEVEL) {
                Ok(_) => None,
                Err(e) => Some(e),
            },
        }
    }
}

/// The chunk row of a piece.
pub open spec fn chunk_row(p: Seq<u8>) -> ChunkModel {
    ChunkModel {
        hash: digest::digest(p).0@,
        size: history::to_sql(p.len() as u64),
        zdata: chunking::zstd_packed(p, chunking::ZSTD_LEVEL)->Ok_0,
    }
}

/// The chunk rows of the pieces.
pub open spec fn chunk_rows(ps: Seq<Seq<u8>>) -> Seq<ChunkModel> {
    Seq::new(ps.len(), |i: int| chunk_row(ps[i]))
}

/// The manifest of the pieces: their digests, one after the other.
pub open spec fn manifest(ps: Seq<Seq<u8>>) -> Seq<u8>
    decreases ps.len(),
{
    if ps.len() == 0 {
        seq![]
    } else {
        manifest(ps.drop_last()) + digest::digest(ps.last()).0@
    }
}

/// The piece packs to something that unpacks to the piece again.
pub open spec fn packs(p: Seq<u8>) -> bool {
    match chunking::zstd_packed(p, chunking::ZSTD_LEVEL) {
        Ok(z) => chunking::zstd_plain(z) == Ok::<Seq<u8>, Seq<char>>(p),
        Err(_) => false,
    }
}

/// The content is cut without gap, every piece packs, and the digests are proper
/// ones. Whatever records the content ensures it.
pub open spec fn storable(bytes: Seq<u8>) -> bool {
    &&& chunking::well_cut(bytes)
    &&& forall|i: int|
        0 <= i < chunking::pieces(bytes).len() ==> packs(#[trigger] chunking::pieces(bytes)[i])
            && digest::proper(chunking::pieces(bytes)[i])
    &&& digest::proper(bytes)
}

/// What packing the pieces of a content ends in.
pub open spec fn pack_fault(ps: Seq<Seq<u8>>) -> Option<Fault> {
    match pack_error(ps) {
        Some(e) => Some(Fault::Malformed("zstd compression failed: "@ + e)),
        None => None,
    }
}

/// What is wrong with a prefix is wrong with the whole.
proof fn pack_error_extends(ps: Seq<Seq<u8>>, k: int)
    requires
        0 <= k <= ps.len(),
        pack_error(ps.take(k)) is Some,
    ensures
        pack_error(ps) == pack_error(ps.take(k)),
    decreases ps.len() - k,
{
    if k < ps.len() {
        assert(ps.take(k + 1).drop_last() =~= ps.take(k));
        pack_error_extends(ps, k + 1);
    } else {
        assert(ps.take(k) =~= ps);
    }
}

/// A content, hashed, cut and packed.
pub struct PackedContent {
    /// The digest of the whole content.
    pub hash: ContentHash,
    /// The digests of the pieces, one after the other.
    pub manifest: Vec<u8>,
    /// The rows of the pieces.
    pub chunks: Vec<ChunkRow>,
}

/// Hash a content, cut it and pack its pieces.
pub fn pack_content(bytes: &[u8]) -> (r: Result<PackedContent, HistoryError>)
    ensures
        match r {
            Ok(c) => {
                &&& pack_error(chunking::pieces(bytes@)) is None
                &&& storable(bytes@)
                &&& c.hash == digest::digest(bytes@)
                &&& c.manifest@ == manifest(chunking::pieces(bytes@))
                &&& reading::chunk_models(c.chunks@) == chunk_rows(chunking::pieces(bytes@))
            },
            Err(e) => pack_fault(chunking::pieces(bytes@)) == Some(e@),
        },
{
    let hash = digest::content_hash(bytes);
    let ranges = chunking::chunk_bytes(bytes);
    let ghost ps = chunking::pieces(bytes@);
    let total: usize = bytes.len();
    let mut list: Vec<u8> = Vec::new();
    let mut rows: Vec<ChunkRow> = Vec::new();
    let mut i: usize = 0;
    assert(ps.take(0) =~= Seq::<Seq<u8>>::empty());
    assert(reading::chunk_models(rows@) =~= chunk_rows(ps.take(0)));
    while i < ranges.len()
        invariant
            i <= ranges@.len(),
            ranges@.len() == ps.len(),
            total == bytes@.len(),
            ps == chunking::pieces(bytes@),
            forall|j: int|
                0 <= j < ranges@.len() ==> (#[trigger] ranges@[j]).0 == digest::digest(ps[j])
                    && ranges@[j].1.start <= ranges@[j].1.end <= bytes@.len() && ps[j]
                    == bytes@.subrange(ranges@[j].1.start as int, ranges@[j].1.end as int),
            pack_error(ps.take(i as int)) is None,
            list@ == manifest(ps.take(i as int)),
            rows@.len() == i,
            reading::chunk_models(rows@) == chunk_rows(ps.take(i as int)),
            forall|j: int|
                0 <= j < i ==> packs(#[trigger] ps[j]) && digest::proper(ps[j]),
        decreases ranges@.len() - i,
    {
        let ghost before = rows@;
        let from: usize = ranges[i].1.start;
        let to: usize = ranges[i].1.end;
        let part = bytes::copy_bytes(bytes, from, to);
        assert(part@ == ps[i as int]);
        proof {
            assert(ps.take(i + 1).drop_last() =~= ps.take(i as int));
            assert(ps.take(i + 1).last() == part@);
        }
        let key = digest::content_hash(part.as_slice());
        let zdata = match chunking::pack(part.as_slice(), chunking::ZSTD_LEVEL) {
            Ok(z) => z,
            Err(e) => {
                let mut v: Vec<char> = Vec::new();
                text::push_text(&mut v, "zstd compression failed: ");
                text::push_text(&mut v, e.as_str());
                assert(v@ =~= "zstd compression failed: "@ + e@);
                proof {
                    pack_error_extends(ps, i + 1);
                }
                return Err(HistoryError::Malformed(text::string_of(v.as_slice())));
            },
        };
        bytes::push_bytes(&mut list, key.0.as_slice());
        let copy = bytes::copy_bytes(key.0.as_slice(), 0, 32);
        assert(copy@ =~= key.0@);
        let row = ChunkRow {
            hash: copy,
            size: history::to_sql_int(part.len() as u64),
            zdata,
        };
        assert(row@ == chunk_row(ps[i as int]));
        rows.push(row);
        i = i + 1;
        assert(reading::chunk_models(rows@) =~= chunk_rows(ps.take(i as int))) by {
            assert forall|j: int| 0 <= j < i implies reading::chunk_models(rows@)[j] == chunk_rows(
                ps.take(i as int),
            )[j] by {
                if j < i - 1 {
                    assert(rows@[j] == before[j]);
                    assert(reading::chunk_models(before)[j] == chunk_rows(ps.take(i - 1))[j]);
                }
            }
        }
    }
    assert(ps.take(ps.len() as int) =~= ps);
    Ok(PackedContent { hash, manifest: list, chunks: rows })
}

// ---- the row of a version --------------------------------------------------
/// The row of a version, its identifier still 0, and the pieces to store with it.
pub open spec fn row_of(r: RecordModel) -> VersionModel {
    VersionModel {
        id: 0,
        path: r.path,
        state: if r.state is Present {
            1
        } else {
            0
        },
        content_hash: if r.state is Present {
            Some(r.state->Present_0.hash.0@)
        } else {
            None
        },
        size: if r.state is Present {
            Some(history::to_sql(r.state->Present_0.size))
        } else {
            None
        },
        manifest: if r.state is Present {
            Some(manifest(chunking::pieces(r.bytes->Some_0)))
        } else {
            None
        },
        clock: codec::version(r.clock),
        replica: history::to_sql(r.replica.0),
        wall_ms: history::to_sql(r.wall_ms),
        origin: r.origin.number(),
        exec_bit: if r.state is Present && r.state->Present_0.exec_bit {
            1
        } else {
            0
        },
    }
}

/// The pieces to store with a version: those of a present version's content.
pub open spec fn record_pieces(r: RecordModel) -> Seq<Seq<u8>> {
    if r.state is Present {
        chunking::pieces(r.bytes->Some_0)
    } else {
        seq![]
    }
}

/// Why a version cannot be recorded, if it cannot: it is present and has no
/// content, its content cannot be packed, or its content is not what its
/// signature declares.
pub open spec fn record_fault(r: RecordModel) -> Option<Fault> {
    match r.state {
        EntryState::Tombstone => None,
        EntryState::Present(sig) => match r.bytes {
            None => Some(Fault::MissingContent { path: r.path }),
            Some(b) => match pack_fault(chunking::pieces(b)) {
                Some(e) => Some(e),
                None => if digest::digest(b) != sig.hash || b.len() != sig.size {
                    Some(
                        Fault::SigMismatch {
                            path: r.path,
                            declared: bytes::hex_text(sig.hash.0@),
                            actual: bytes::hex_text(digest::digest(b).0@),
                        },
                    )
                } else {
                    None
                },
            },
        },
    }
}

/// The rows that recording a version adds where they are not there yet.
pub struct Plan {
    /// The chunks of the content.
    pub chunks: Vec<ChunkRow>,
    /// The version's row, its identifier still 0.
    pub row: VersionRow,
}

/// Whether a plan is that of a version.
pub open spec fn plans(p: Plan, r: RecordModel) -> bool {
    &&& record_fault(r) is None
    &&& p.row@ == row_of(r)
    &&& reading::chunk_models(p.chunks@) == chunk_rows(record_pieces(r))
    &&& r.state is Present ==> storable(r.bytes->Some_0)
}

/// Whether the content is what the signature declares.
fn verify_sig(path: &RelPath, sig: &ContentSig, hash: ContentHash, size: u64) -> (r: Result<
    (),
    HistoryError,
>)
    ensures
        match r {
            Ok(_) => hash == sig.hash && size == sig.size,
            Err(e) => (hash != sig.hash || size != sig.size) && e@ == (Fault::SigMismatch {
                path: path@,
                declared: bytes::hex_text(sig.hash.0@),
                actual: bytes::hex_text(hash.0@),
            }),
        },
{
    if !hash.same(&sig.hash) || size != sig.size {
        return Err(
            HistoryError::SigMismatch {
                path: path.clone(),
                declared: sig.hash.to_hex(),
                actual: hash.to_hex(),
            },
        );
    }
    Ok(())
}

/// Work out the rows of a version.
pub fn plan_version(record: &VersionRecord<'_>) -> (r: Result<Plan, HistoryError>)
    ensures
        match r {
            Ok(p) => plans(p, record@),
            Err(e) => record_fault(record@) == Some(e@),
        },
{
    let mut clock: Vec<u8> = Vec::new();
    codec::put_version(record.clock, &mut clock);
    assert(clock@ =~= codec::version(record.clock@));
    let replica: i64 = history::to_sql_int(record.replica.0);
    let wall_ms: i64 = history::to_sql_int(record.wall_ms);
    let origin: i64 = record.origin.as_i64();
    let path = record.path.as_str().to_owned();
    match record.state {
        EntryState::Present(sig) => {
            let content = match record.bytes {
                Some(b) => b,
                None => {
                    return Err(HistoryError::MissingContent { path: record.path.clone() });
                },
            };
            let packed = match pack_content(content) {
                Ok(p) => p,
                Err(e) => {
                    return Err(e);
                },
            };
            match verify_sig(record.path, sig, packed.hash, content.len() as u64) {
                Ok(_) => {},
                Err(e) => {
                    return Err(e);
                },
            }
            let hash = bytes::copy_bytes(packed.hash.0.as_slice(), 0, 32);
            assert(hash@ =~= sig.hash.0@);
            let row = VersionRow {
                id: 0,
                path,
                state: 1,
                content_hash: Some(hash),
                size: Some(history::to_sql_int(sig.size)),
                manifest: Some(packed.manifest),
                clock,
                replica,
                wall_ms,
                origin,
                exec_bit: if sig.exec_bit {
                    1
                } else {
                    0
                },
            };
            Ok(Plan { chunks: packed.chunks, row })
        },
        EntryState::Tombstone => {
            let row = VersionRow {
                id: 0,
                path,
                state: 0,
                content_hash: None,
                size: None,
                manifest: None,
                clock,
                replica,
                wall_ms,
                origin,
                exec_bit: 0,
            };
            let chunks: Vec<ChunkRow> = Vec::new();
            assert(reading::chunk_models(chunks@) =~= chunk_rows(record_pieces(record@)));
            Ok(Plan { chunks, row })
        },
    }
}

} // verus!
