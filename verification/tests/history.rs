//! The history store.

use tomo::chunking::chunk_bytes;
use tomo::clock::{ReplicaId, VectorClock};
use tomo::history::{
    ChunkRow, ConflictId, ConflictRow, HistoryError, Origin, VersionId, VersionRow,
};
use tomo::index::{ContentHash, ContentSig, EntryState};
use tomo::path::RelPath;
use tomo::recording::VersionRecord;
use tomo::store::HistoryStore;
use tomo::wireerror::WireError;

/// An empty store.
fn fresh_store() -> HistoryStore {
    HistoryStore::new()
}

/// The same tables, read back from their rows.
fn reopened(store: &HistoryStore) -> HistoryStore {
    let (v, c) = store.last_ids();
    HistoryStore::from_rows(
        store.chunk_rows().clone(),
        store.version_rows().clone(),
        store.conflict_rows().clone(),
        v,
        c,
    )
    .unwrap()
}

/// The BLAKE3 content signature of `bytes`, exactly as the store computes it.
fn sig_of(bytes: &[u8]) -> ContentSig {
    ContentSig {
        hash: ContentHash(*blake3::hash(bytes).as_bytes()),
        size: bytes.len() as u64,
        exec_bit: false,
        mtime_ms: 0,
    }
}

/// A path from a `&str`, panicking on an invalid one (test convenience).
fn rp(s: &str) -> RelPath {
    RelPath::new(s).expect("valid path")
}

/// A single-replica clock ticked `n` times — a stand-in for a per-path version
/// stream on one replica.
fn clock_at(replica: u64, n: u64) -> VectorClock {
    let mut c = VectorClock::new();
    for _ in 0..n {
        c.tick(ReplicaId(replica));
    }
    c
}

/// Record a present version of `path` with `bytes`, computing its signature.
fn record_present(
    store: &mut HistoryStore,
    path: &RelPath,
    bytes: &[u8],
    replica: u64,
    tick: u64,
) -> VersionId {
    store
        .record_version(
            path,
            &EntryState::Present(sig_of(bytes)),
            &clock_at(replica, tick),
            ReplicaId(replica),
            Origin::Local,
            0,
            Some(bytes),
        )
        .expect("record present version")
}

/// A deterministic pseudorandom byte vector of length `len`, seeded by `seed`.
///
/// A tiny xorshift keeps the tests reproducible without pulling in `rand`.
fn pseudorandom(len: usize, seed: u64) -> Vec<u8> {
    let mut state = seed | 1;
    let mut out = Vec::with_capacity(len);
    while out.len() < len {
        state ^= state << 13;
        state ^= state >> 7;
        state ^= state << 17;
        out.extend_from_slice(&state.to_le_bytes());
    }
    out.truncate(len);
    out
}

/// The store's maximum chunk size; "< 3 chunks' worth" is measured against it.
const MAX_CHUNK: u64 = 256 * 1024;

#[test]
fn storing_identical_content_twice_is_free() {
    let mut store = fresh_store();
    let bytes = pseudorandom(1024 * 1024, 0xABCD);

    let (h1, new1) = store.store_content(&bytes).expect("first store");
    assert!(new1 > 0, "first store writes the whole file");

    let (h2, new2) = store.store_content(&bytes).expect("second store");
    assert_eq!(h1, h2, "same content, same hash");
    assert_eq!(
        new2, 0,
        "re-storing identical content writes zero new bytes"
    );
}

#[test]
fn one_byte_flip_restores_only_local_chunks() {
    let mut store = fresh_store();
    let mut bytes = pseudorandom(10 * 1024 * 1024, 0x1234_5678);

    let (_h1, new1) = store.store_content(&bytes).expect("first store");
    assert!(
        new1 >= u64::try_from(bytes.len() / 2).unwrap(),
        "first store writes most of the file"
    );

    // Flip one byte in the middle and re-store.
    let mid = bytes.len() / 2;
    bytes[mid] ^= 0xFF;
    let (_h2, new2) = store.store_content(&bytes).expect("second store");

    // Content-defined chunking localizes the edit: at most a couple of chunks
    // change (the edited chunk, plus possibly a re-cut neighbour), never the
    // whole 10 MiB.
    assert!(
        new2 < 3 * MAX_CHUNK,
        "one-byte edit re-stored {new2} new bytes, expected < {} (3 max chunks)",
        3 * MAX_CHUNK
    );
    assert!(new2 > 0, "the edited chunk is genuinely new content");
}

#[test]
fn check_is_green_on_a_healthy_store() {
    let mut store = fresh_store();
    // A mix of small, boundary, and multi-chunk files, plus a tombstone.
    record_present(&mut store, &rp("a.txt"), b"small", 1, 1);
    record_present(&mut store, &rp("b.bin"), &pseudorandom(500_000, 1), 1, 1);
    record_present(&mut store, &rp("c.bin"), &pseudorandom(2_000_000, 2), 1, 1);

    let report = store.check("ok");
    assert!(report.ok, "healthy store should pass: {:?}", report.issues);
    assert!(report.issues.is_empty());
    assert!(report.versions_checked >= 3);
    assert!(report.chunks_checked >= 3);
}

/// The store with the packed bytes of its first chunk replaced.
fn with_first_chunk(store: &HistoryStore, zdata: Vec<u8>) -> HistoryStore {
    let (v, c) = store.last_ids();
    let mut chunks = store.chunk_rows().clone();
    chunks[0].zdata = zdata;
    HistoryStore::from_rows(
        chunks,
        store.version_rows().clone(),
        store.conflict_rows().clone(),
        v,
        c,
    )
    .unwrap()
}

#[test]
fn corrupt_zdata_is_caught_by_check_and_get_content() {
    let mut store = fresh_store();
    let path = rp("victim.bin");
    let bytes = pseudorandom(1_500_000, 0xDEAD);
    let id = record_present(&mut store, &path, &bytes, 1, 1);

    // Sanity: healthy before corruption.
    assert!(store.get_content(id).is_ok());
    assert!(store.check("ok").ok);

    // Corrupt one chunk's compressed bytes.
    let garbage = vec![0xFFu8; 64]; // not a valid zstd frame
    let store = with_first_chunk(&store, garbage);

    // check() reports the bad chunk (no panic, no silent pass).
    let report = store.check("ok");
    assert!(!report.ok, "corruption must fail the check");
    assert!(
        report.issues.iter().any(|i| i.contains("corrupt chunk")),
        "issues should name the corrupt chunk: {:?}",
        report.issues
    );

    // get_content refuses to return wrong bytes.
    let err = store
        .get_content(id)
        .expect_err("must not return bad bytes");
    assert!(matches!(err, HistoryError::CorruptChunk { .. }));
}

#[test]
fn silently_swapped_chunk_content_is_caught_by_hash() {
    // A chunk whose zdata decompresses cleanly but to *different* bytes of the
    // same length must still be rejected — the BLAKE3 key check catches it.
    let mut store = fresh_store();
    let path = rp("victim.bin");
    let bytes = pseudorandom(800_000, 0xBEEF);
    let id = record_present(&mut store, &path, &bytes, 1, 1);

    // Valid zstd of different content of the same size.
    let size = usize::try_from(store.chunk_rows()[0].size).unwrap();
    let replacement = zstd::encode_all(vec![0x5Au8; size].as_slice(), 3).unwrap();
    let store = with_first_chunk(&store, replacement);

    let err = store
        .get_content(id)
        .expect_err("hash mismatch must be caught");
    assert!(matches!(err, HistoryError::CorruptChunk { .. }));
    assert!(!store.check("ok").ok);
}

#[test]
fn get_content_of_unknown_version_errors() {
    let store = fresh_store();
    let err = store
        .get_content(VersionId(424_242))
        .expect_err("unknown version");
    assert!(matches!(err, HistoryError::NoSuchVersion(_)));
}

/// `FastCDC` boundaries configured in the store (16 KiB / 64 KiB / 256 KiB).
const MIN: usize = 16 * 1024;
const AVG: usize = 64 * 1024;
const MAX: usize = 256 * 1024;

fn round_trips(bytes: &[u8]) {
    let mut store = fresh_store();
    let path = rp("file.bin");
    let id = record_present(&mut store, &path, bytes, 1, 1);
    let got = store.get_content(id).expect("get_content");
    assert_eq!(got.len(), bytes.len(), "length mismatch");
    assert_eq!(got, bytes, "content mismatch");
}

#[test]
fn empty_file_round_trips() {
    round_trips(&[]);
}

#[test]
fn one_byte_round_trips() {
    round_trips(&[0x42]);
}

#[test]
fn boundary_sizes_round_trip() {
    for &size in &[MIN - 1, MIN, MIN + 1, AVG, MAX - 1, MAX, MAX + 1, 3 * MAX] {
        let bytes = pseudorandom(size, 0x51 ^ size as u64);
        round_trips(&bytes);
    }
}

#[test]
fn five_mib_random_round_trips() {
    let bytes = pseudorandom(5 * 1024 * 1024, 0xF00D);
    round_trips(&bytes);
}

#[test]
fn store_content_reports_content_hash() {
    let mut store = fresh_store();
    let bytes = pseudorandom(200_000, 7);
    let (hash, new_bytes) = store.store_content(&bytes).expect("store_content");
    assert_eq!(
        hash,
        sig_of(&bytes).hash,
        "reported hash is the whole-file BLAKE3"
    );
    assert!(new_bytes > 0, "a fresh multi-chunk file writes new bytes");
}

#[test]
fn get_content_verifies_whole_file_hash_ok() {
    // A healthy round-trip passes the internal whole-file hash verification.
    let mut store = fresh_store();
    let bytes = pseudorandom(AVG * 3, 99);
    let id = record_present(&mut store, &rp("v.bin"), &bytes, 1, 1);
    assert_eq!(store.get_content(id).unwrap(), bytes);
}

#[test]
fn n_sequential_versions_log_in_order_and_restore() {
    let mut store = fresh_store();
    let path = rp("src/main.rs");

    let n = 12u64;
    let mut expected = Vec::new();
    for i in 1..=n {
        let bytes = format!("edit number {i}\n")
            .repeat(usize::try_from(i).unwrap())
            .into_bytes();
        let id = record_present(&mut store, &path, &bytes, 1, i);
        expected.push((id, bytes));
    }

    // log() is newest-first and returns exactly N entries.
    let log = store.log(&path).expect("log");
    assert_eq!(
        log.len(),
        usize::try_from(n).unwrap(),
        "one version per edit"
    );
    let logged_ids: Vec<_> = log.iter().map(|m| m.id).collect();
    let mut expected_ids: Vec<_> = expected.iter().map(|(id, _)| *id).collect();
    expected_ids.reverse(); // newest first
    assert_eq!(logged_ids, expected_ids, "log is newest-first");

    // Every recorded version restores byte-identically.
    for (id, bytes) in &expected {
        assert_eq!(&store.get_content(*id).unwrap(), bytes, "version {id:?}");
    }

    // latest_version_id points at the final edit.
    assert_eq!(
        store.latest_version_id(&path),
        Some(expected.last().unwrap().0)
    );
}

#[test]
fn log_carries_clock_replica_and_origin() {
    let mut store = fresh_store();
    let path = rp("a.txt");
    let bytes = b"hello";
    let id = store
        .record_version(
            &path,
            &EntryState::Present(sig_of(bytes)),
            &clock_at(2, 3),
            ReplicaId(2),
            Origin::Remote,
            123_456,
            Some(bytes),
        )
        .unwrap();

    let log = store.log(&path).unwrap();
    assert_eq!(log.len(), 1);
    let m = &log[0];
    assert_eq!(m.id, id);
    assert_eq!(m.replica, ReplicaId(2));
    assert_eq!(m.origin, Origin::Remote);
    assert_eq!(m.wall_ms, 123_456);
    assert_eq!(m.clock, clock_at(2, 3));
    assert_eq!(m.content_hash, Some(sig_of(bytes).hash));
    assert_eq!(m.size, Some(bytes.len() as u64));
    assert_eq!(m.state, EntryState::Present(sig_of(bytes)));
}

#[test]
fn tombstone_versions_round_trip_without_content() {
    let mut store = fresh_store();
    let path = rp("gone.txt");

    let present_id = record_present(&mut store, &path, b"here", 1, 1);
    let tomb_id = store
        .record_version(
            &path,
            &EntryState::Tombstone,
            &clock_at(1, 2),
            ReplicaId(1),
            Origin::Local,
            0,
            None,
        )
        .expect("record tombstone");

    let log = store.log(&path).unwrap();
    assert_eq!(log.len(), 2);
    assert_eq!(log[0].id, tomb_id);
    assert_eq!(log[0].state, EntryState::Tombstone);
    assert_eq!(log[0].content_hash, None);
    assert_eq!(log[0].size, None);

    // The present version still restores; the tombstone has no content.
    assert_eq!(store.get_content(present_id).unwrap(), b"here");
    assert!(
        store.get_content(tomb_id).is_err(),
        "tombstone has no content"
    );
}

#[test]
fn present_version_without_bytes_is_rejected() {
    let mut store = fresh_store();
    let path = rp("x");
    let err = store
        .record_version(
            &path,
            &EntryState::Present(sig_of(b"data")),
            &clock_at(1, 1),
            ReplicaId(1),
            Origin::Local,
            0,
            None,
        )
        .expect_err("present without bytes must fail");
    assert!(matches!(
        err,
        HistoryError::MissingContent { .. }
    ));
    // Nothing was persisted (the transaction rolled back).
    assert_eq!(store.log(&path).unwrap().len(), 0);
}

#[test]
fn mismatched_signature_is_rejected() {
    let mut store = fresh_store();
    let path = rp("x");
    // Declare the signature of different bytes than we pass.
    let wrong_sig = sig_of(b"the declared content");
    let err = store
        .record_version(
            &path,
            &EntryState::Present(wrong_sig),
            &clock_at(1, 1),
            ReplicaId(1),
            Origin::Local,
            0,
            Some(b"the actual content"),
        )
        .expect_err("signature mismatch must fail");
    assert!(matches!(
        err,
        HistoryError::SigMismatch { .. }
    ));
    assert_eq!(store.log(&path).unwrap().len(), 0, "rolled back");
}

#[test]
fn conflicts_are_recorded_and_queried() {
    let mut store = fresh_store();
    let path = rp("contested.txt");
    let winner = record_present(&mut store, &path, b"winner", 1, 1);
    let loser = record_present(&mut store, &path, b"loser", 2, 1);

    let cid = store.record_conflict(&path, winner, loser, 999).unwrap();

    let all = store.conflicts(false).unwrap();
    assert_eq!(all.len(), 1);
    let c = &all[0];
    assert_eq!(c.id, cid);
    assert_eq!(c.path, path);
    assert_eq!(c.winner, winner);
    assert_eq!(c.loser, loser);
    assert_eq!(c.wall_ms, 999);
    assert!(!c.resolved);

    // unresolved_only returns the same open conflict.
    assert_eq!(store.conflicts(true).unwrap().len(), 1);
}

#[test]
fn mark_conflict_resolved_flips_the_flag_idempotently() {
    let mut store = fresh_store();
    let path = rp("contested.txt");
    let winner = record_present(&mut store, &path, b"winner", 1, 1);
    let loser = record_present(&mut store, &path, b"loser", 2, 1);
    let cid = store.record_conflict(&path, winner, loser, 999).unwrap();

    // Present in the unresolved set.
    assert_eq!(store.conflicts(true).unwrap().len(), 1);

    // First resolve flips the flag and reports the change.
    assert!(store.mark_conflict_resolved(cid));
    assert_eq!(store.conflicts(true).unwrap().len(), 0);
    // The row still exists in the full listing, now marked resolved.
    let all = store.conflicts(false).unwrap();
    assert_eq!(all.len(), 1);
    assert!(all[0].resolved);

    // Resolving again is a no-op that reports nothing changed.
    assert!(!store.mark_conflict_resolved(cid));
    // An unknown id also reports no change (no error).
    assert!(!store
        .mark_conflict_resolved(ConflictId(9999)));
}

#[test]
fn conflict_referencing_unknown_version_is_rejected() {
    // Foreign keys are ON: a conflict cannot reference a nonexistent version.
    let mut store = fresh_store();
    let path = rp("p");
    let real = record_present(&mut store, &path, b"x", 1, 1);
    let bogus = VersionId(9999);
    assert!(store.record_conflict(&path, real, bogus, 0).is_err());
}

#[test]
fn latest_version_id_is_none_for_unknown_path() {
    let store = fresh_store();
    assert_eq!(store.latest_version_id(&rp("never.txt")), None);
}

#[test]
fn two_handles_interleave_writes_and_reads() {
    // Two handles on the same tables, each reading what the other wrote before it
    // writes.
    let mut a = fresh_store();
    let mut b = fresh_store();

    let pa = rp("from_a.bin");
    let pb = rp("from_b.bin");

    // Interleave writes from both handles.
    let mut ids = Vec::new();
    for i in 1..=5u64 {
        let da = pseudorandom(40_000, 100 + i);
        let db = pseudorandom(40_000, 200 + i);
        ids.push((record_present(&mut a, &pa, &da, 1, i), da));
        b = reopened(&a);
        ids.push((record_present(&mut b, &pb, &db, 2, i), db));
        a = reopened(&b);
    }

    // Each handle sees the other's committed versions and restores them.
    for (id, bytes) in &ids {
        assert_eq!(&a.get_content(*id).unwrap(), bytes);
        assert_eq!(&b.get_content(*id).unwrap(), bytes);
    }

    // Both logs reflect all five edits to their respective paths.
    assert_eq!(a.log(&pa).unwrap().len(), 5);
    assert_eq!(b.log(&pb).unwrap().len(), 5);
    assert!(a.check("ok").ok);
}

/// Record a present version of `path`, with one more tick than the path has
/// versions, so that each version has a clock of its own.
fn record(store: &mut HistoryStore, path: &str, bytes: &[u8], replica: u64) -> VersionId {
    let rel = RelPath::new(path).unwrap();
    let n = u32::try_from(store.log(&rel).unwrap().len()).unwrap() + 1;
    let (hash, _) = store.store_content(bytes).unwrap();
    let mut clock = VectorClock::new();
    for _ in 0..n {
        clock.tick(ReplicaId(replica));
    }
    let sig = ContentSig {
        hash,
        size: bytes.len() as u64,
        exec_bit: false,
        mtime_ms: 0,
    };
    store
        .record_version(
            &rel,
            &EntryState::Present(sig),
            &clock,
            ReplicaId(replica),
            Origin::Local,
            0,
            Some(bytes),
        )
        .unwrap()
}

/// A present [`ContentSig`] for `bytes` (mtime is not identity, and the store
/// never persists it — it reads back as `0`, so `0` here round-trips).
fn present_sig(bytes: &[u8]) -> ContentSig {
    ContentSig {
        hash: ContentHash(*blake3::hash(bytes).as_bytes()),
        size: bytes.len() as u64,
        exec_bit: false,
        mtime_ms: 0,
    }
}

/// A clock ticked `n` times for `replica` — a stable "version identity".
fn clock_ticked(replica: u64, n: u32) -> VectorClock {
    let mut c = VectorClock::new();
    for _ in 0..n {
        c.tick(ReplicaId(replica));
    }
    c
}

/// Record one present version of `path` unless a version with the same clock and
/// state is logged. Returns whether a row was added.
fn ingest_dedup(
    store: &mut HistoryStore,
    path: &str,
    bytes: &[u8],
    clock: &VectorClock,
) -> bool {
    let rel = RelPath::new(path).unwrap();
    let sig = present_sig(bytes);
    let state = EntryState::Present(sig);
    for m in store.log(&rel).unwrap() {
        if m.clock == *clock && m.state == state {
            return false; // identical version already stored — idempotent skip
        }
    }
    store
        .record_version(
            &rel,
            &state,
            clock,
            ReplicaId(1),
            Origin::Local,
            0,
            Some(bytes),
        )
        .unwrap();
    true
}

#[test]
fn exec_bit_round_trips_through_record_and_log() {
    let mut store = HistoryStore::new();
    let rel = RelPath::new("build.sh").unwrap();
    let bytes = b"#!/bin/sh\necho hi\n";
    let (hash, _) = store.store_content(bytes).unwrap();
    let mut clock = VectorClock::new();
    clock.tick(ReplicaId(1));
    // Record an EXECUTABLE version.
    let exec_sig = ContentSig {
        hash,
        size: bytes.len() as u64,
        exec_bit: true,
        mtime_ms: 0,
    };
    store
        .record_version(
            &rel,
            &EntryState::Present(exec_sig),
            &clock,
            ReplicaId(1),
            Origin::Local,
            0,
            Some(bytes),
        )
        .unwrap();
    // …then a non-executable version of the SAME bytes (a chmod -x).
    clock.tick(ReplicaId(1));
    let plain_sig = ContentSig {
        exec_bit: false,
        ..exec_sig
    };
    store
        .record_version(
            &rel,
            &EntryState::Present(plain_sig),
            &clock,
            ReplicaId(1),
            Origin::Local,
            1,
            Some(bytes),
        )
        .unwrap();

    let versions = store.log(&rel).unwrap();
    assert_eq!(versions.len(), 2);
    // Newest first: the chmod -x (non-exec), then the executable one.
    assert_eq!(versions[0].state, EntryState::Present(plain_sig));
    assert_eq!(versions[1].state, EntryState::Present(exec_sig));
    assert!(matches!(versions[1].state, EntryState::Present(s) if s.exec_bit));
    assert!(matches!(versions[0].state, EntryState::Present(s) if !s.exec_bit));
}

#[test]
fn recent_returns_newest_first_across_paths_and_respects_limit() {
    let mut store = HistoryStore::new();

    // Interleave two paths; ids increase monotonically with insertion.
    record(&mut store, "a.txt", b"a1", 1);
    record(&mut store, "b.txt", b"b1", 2);
    record(&mut store, "a.txt", b"a2", 1);
    let last = record(&mut store, "b.txt", b"b2", 2);

    let all = store.recent(10).unwrap();
    assert_eq!(all.len(), 4, "every version is listed");
    // Newest first: the last insert leads, ids strictly descending.
    assert_eq!(all[0].1.id, last);
    assert_eq!(all[0].0.as_str(), "b.txt");
    for pair in all.windows(2) {
        assert!(pair[0].1.id > pair[1].1.id, "ids must descend");
    }

    // Limit caps the result to the newest N.
    let two = store.recent(2).unwrap();
    assert_eq!(two.len(), 2);
    assert_eq!(two[0].1.id, last);
    assert!(two[0].1.id > two[1].1.id);
}

#[test]
fn recent_is_empty_on_a_fresh_store() {
    let store = HistoryStore::new();
    assert!(store.recent(20).unwrap().is_empty());
}

#[test]
fn history_paths_groups_by_path_newest_first_with_counts() {
    let mut store = HistoryStore::new();

    // a.txt gets three versions, b.txt one; the last write is to a.txt.
    record(&mut store, "a.txt", b"a1", 1);
    record(&mut store, "b.txt", b"b1", 2);
    record(&mut store, "a.txt", b"a2", 1);
    let last_a = record(&mut store, "a.txt", b"a3", 1);

    let paths = store.history_paths(10).unwrap();
    assert_eq!(paths.len(), 2, "one row per distinct path");
    // a.txt has the newest version (last insert) → it leads.
    assert_eq!(paths[0].path.as_str(), "a.txt");
    assert_eq!(paths[0].versions, 3);
    assert_eq!(paths[0].last_version, last_a);
    assert_eq!(paths[1].path.as_str(), "b.txt");
    assert_eq!(paths[1].versions, 1);
}

#[test]
fn history_paths_respects_limit_and_is_empty_when_fresh() {
    let mut store = HistoryStore::new();
    assert!(store.history_paths(5).unwrap().is_empty());
    record(&mut store, "a.txt", b"a", 1);
    record(&mut store, "b.txt", b"b", 1);
    record(&mut store, "c.txt", b"c", 1);
    let two = store.history_paths(2).unwrap();
    assert_eq!(two.len(), 2, "limit caps the distinct-path rows");
    assert_eq!(two[0].path.as_str(), "c.txt", "newest path first");
}

#[test]
fn mark_conflict_unresolved_inverts_resolved() {
    let mut store = HistoryStore::new();
    let a = record(&mut store, "clash.txt", b"aaa", 1);
    let b = record(&mut store, "clash.txt", b"bbb", 2);
    let id = store
        .record_conflict(&RelPath::new("clash.txt").unwrap(), a, b, 0)
        .unwrap();

    // Resolve, then unresolve, checking the unresolved set both times.
    assert!(store.mark_conflict_resolved(id));
    assert!(store.conflicts(true).unwrap().is_empty());
    assert!(store.mark_conflict_unresolved(id), "flipped back");
    assert_eq!(store.conflicts(true).unwrap().len(), 1, "reappears");
    // Idempotent: a second unresolve is a no-op (already unresolved).
    assert!(!store.mark_conflict_unresolved(id));
}

// ---- ingesting ---------------------------------------------------------

/// How many chunk rows there are.
fn count_chunks(store: &HistoryStore) -> usize {
    store.chunk_rows().len()
}

#[test]
fn h8_identical_content_dedups_chunks_across_versions_and_paths() {
    let mut store = HistoryStore::new();
    // Multi-chunk content so dedup spans several chunk rows.
    let data = pseudorandom(300 * 1024, 0xABCD);

    let (_h, new1) = store.store_content(&data).unwrap();
    assert!(new1 > 0, "first store writes new chunk bytes");
    let chunks_after_first = count_chunks(&store);
    assert!(chunks_after_first > 1, "content spans multiple chunks");

    // Re-storing identical bytes writes ZERO new bytes and no new rows.
    let (_h2, new2) = store.store_content(&data).unwrap();
    assert_eq!(new2, 0, "identical content adds no new chunk bytes");
    assert_eq!(
        count_chunks(&store),
        chunks_after_first,
        "identical content adds no new chunk rows"
    );

    // The SAME bytes recorded under two DIFFERENT paths still share chunks:
    // dedup is content-addressed and path-independent.
    record(&mut store, "p1.bin", &data, 1);
    record(&mut store, "p2.bin", &data, 2);
    assert_eq!(
        count_chunks(&store),
        chunks_after_first,
        "two paths with identical bytes share every chunk"
    );
}

#[test]
fn h8_raw_record_version_is_store_level_idempotent_after_the_b2_fix() {
    // Recording an identical version (same path, content, and clock) does not
    // append a second row: the existing identifier is returned.
    let mut store = HistoryStore::new();
    let rel = RelPath::new("dup.txt").unwrap();
    let bytes = b"same-bytes";
    let sig = present_sig(bytes);
    let clock = clock_ticked(1, 1);

    let mut ids = Vec::new();
    for _ in 0..3 {
        ids.push(
            store
                .record_version(
                    &rel,
                    &EntryState::Present(sig),
                    &clock,
                    ReplicaId(1),
                    Origin::Local,
                    0,
                    Some(bytes),
                )
                .unwrap(),
        );
    }
    assert_eq!(
        store.log(&rel).unwrap().len(),
        1,
        "one row per identity"
    );
    assert!(
        ids.iter().all(|id| *id == ids[0]),
        "every re-record returns the SAME (existing) id"
    );
    // The content still deduped at the chunk level (single small chunk).
    assert_eq!(
        count_chunks(&store),
        1,
        "identical bytes share one chunk row"
    );
}

#[test]
fn h8_batch_ingest_equals_n_single_ingests() {
    // A batched `record_versions` of N versions is exactly equivalent to N single
    // `record_version` calls: same content addresses, same chunk dedup, same
    // resulting rows, and the same idempotency.
    let batch: Vec<(String, Vec<u8>)> = (0..8)
        .map(|i| (format!("p{i}.bin"), pseudorandom(50 * 1024, 7 * i + 1)))
        .collect();
    let clock = clock_ticked(1, 1);

    // Reference store: N single ingests.
    let mut ref_store = HistoryStore::new();
    for (path, bytes) in &batch {
        ref_store
            .record_version(
                &RelPath::new(path).unwrap(),
                &EntryState::Present(present_sig(bytes)),
                &clock,
                ReplicaId(1),
                Origin::Remote,
                0,
                Some(bytes),
            )
            .unwrap();
    }

    // Batch store: ONE `record_versions` of the same N.
    let mut batch_store = HistoryStore::new();
    let rels: Vec<RelPath> = batch
        .iter()
        .map(|(p, _)| RelPath::new(p).unwrap())
        .collect();
    let states: Vec<EntryState> = batch
        .iter()
        .map(|(_, b)| EntryState::Present(present_sig(b)))
        .collect();
    let records: Vec<VersionRecord> = (0..batch.len())
        .map(|i| VersionRecord {
            path: &rels[i],
            state: &states[i],
            clock: &clock,
            replica: ReplicaId(1),
            origin: Origin::Remote,
            wall_ms: 0,
            bytes: Some(&batch[i].1),
        })
        .collect();
    batch_store.record_versions(&records).unwrap();

    // Equivalence: identical per-path version metadata and identical chunk
    // population.
    assert_eq!(count_chunks(&batch_store), count_chunks(&ref_store));
    for (path, _bytes) in &batch {
        let rel = RelPath::new(path).unwrap();
        let bv = batch_store.log(&rel).unwrap();
        let rv = ref_store.log(&rel).unwrap();
        assert_eq!(bv.len(), 1);
        assert_eq!(rv.len(), 1);
        assert_eq!(bv[0].state, rv[0].state, "same state/sig for {path}");
        assert_eq!(bv[0].content_hash, rv[0].content_hash, "same address");
    }

    // Idempotent replay of the whole batch changes nothing (store-level).
    batch_store.record_versions(&records).unwrap();
    for (path, _) in &batch {
        assert_eq!(
            batch_store.log(&RelPath::new(path).unwrap()).unwrap().len(),
            1,
            "batch replay is idempotent"
        );
    }
    assert!(
        batch_store.check("ok").ok,
        "db check green after replay"
    );
}

#[test]
fn h8_log_check_makes_reingest_idempotent_with_stable_version_count() {
    // Guarding each ingest with a `log()` lookup for a matching (clock, state)
    // makes re-ingesting an identical version idempotent.
    let mut store = HistoryStore::new();
    let clock = clock_ticked(1, 1);

    assert!(
        ingest_dedup(&mut store, "f.txt", b"v1", &clock),
        "first ingest records"
    );
    assert!(
        !ingest_dedup(&mut store, "f.txt", b"v1", &clock),
        "identical re-ingest is skipped"
    );
    assert!(
        !ingest_dedup(&mut store, "f.txt", b"v1", &clock),
        "still idempotent on a third pass"
    );
    assert_eq!(
        store.log(&RelPath::new("f.txt").unwrap()).unwrap().len(),
        1,
        "version count is stable across re-ingests"
    );

    // A genuinely NEW version (advanced clock) is not swallowed.
    assert!(ingest_dedup(
        &mut store,
        "f.txt",
        b"v2",
        &clock_ticked(1, 2)
    ));
    assert_eq!(store.log(&RelPath::new("f.txt").unwrap()).unwrap().len(), 2);
}

#[test]
fn h8_interrupted_ingest_reopens_clean_and_reingest_is_idempotent() {
    // The store is dropped between inserts and read back from its rows. Integrity
    // must be green across the boundary, and a guarded re-ingest of the whole
    // batch is idempotent: no duplicate versions.
    let batch: Vec<(String, Vec<u8>)> = (0..6)
        .map(|i| (format!("b{i}.bin"), pseudorandom(40 * 1024, 100 + i)))
        .collect();
    let clock = clock_ticked(1, 1);

    // Ingest the first half.
    let mut first = HistoryStore::new();
    for (path, bytes) in &batch[..3] {
        ingest_dedup(&mut first, path, bytes, &clock);
    }

    // Reopen: integrity intact after the interrupted sequence.
    let mut store = reopened(&first);
    assert!(store.check("ok").ok, "db check green after a mid-batch drop");

    // Re-ingest the WHOLE batch: the first three dedup (already present), the
    // rest are added; the total is exactly the batch.
    for (path, bytes) in &batch {
        ingest_dedup(&mut store, path, bytes, &clock);
    }
    for (path, _) in &batch {
        assert_eq!(
            store.log(&RelPath::new(path).unwrap()).unwrap().len(),
            1,
            "each path has exactly one version after replay"
        );
    }
    // Replaying the batch AGAIN changes nothing (fully idempotent).
    for (path, bytes) in &batch {
        assert!(!ingest_dedup(&mut store, path, bytes, &clock));
    }
    assert!(
        store.check("ok").ok,
        "db check green after idempotent replay"
    );
}

#[test]
fn h8_version_order_is_by_rowid_never_wall_time() {
    // The ordering authority is the rowid (insertion order), never
    // `wall_ms` (display only). Record three versions of one path with
    // strictly DECREASING wall_ms and assert `log()` still returns them
    // newest-INSERTED first (ids descending), independent of wall time.
    let mut store = HistoryStore::new();
    let rel = RelPath::new("t.txt").unwrap();

    for (n, wall) in [(1u32, 3000u64), (2, 2000), (3, 1000)] {
        let bytes = vec![u8::try_from(n).unwrap(); 128];
        store
            .record_version(
                &rel,
                &EntryState::Present(present_sig(&bytes)),
                &clock_ticked(1, n),
                ReplicaId(1),
                Origin::Local,
                wall,
                Some(&bytes),
            )
            .unwrap();
    }

    let log = store.log(&rel).unwrap();
    assert_eq!(log.len(), 3);
    // Newest-first is by rowid: the LAST inserted (smallest wall_ms) leads.
    assert_eq!(
        log[0].wall_ms, 1000,
        "last inserted leads despite smallest wall"
    );
    assert_eq!(log[1].wall_ms, 2000);
    assert_eq!(
        log[2].wall_ms, 3000,
        "first inserted trails despite largest wall"
    );
    for w in log.windows(2) {
        assert!(w[0].id > w[1].id, "ordering is strictly descending rowid");
    }
}

/// The public `chunk_bytes` must cut and hash exactly as what is persisted:
/// identical chunk ids in identical order.
#[test]
fn chunk_bytes_ids_match_stored_manifest() {
    for (len, seed) in [(37usize, 1u64), (100 * 1024, 7), (5 * 1024 * 1024, 0x51ED)] {
        let data = pseudorandom(len, seed);
        let mut store = HistoryStore::new();
        record_present(&mut store, &rp("f"), &data, 1, 1);

        let pure: Vec<[u8; 32]> = chunk_bytes(&data).into_iter().map(|(h, _)| h.0).collect();
        let persisted: Vec<[u8; 32]> = store.version_rows()[0]
            .manifest
            .as_ref()
            .unwrap()
            .chunks_exact(32)
            .map(|c| <[u8; 32]>::try_from(c).unwrap())
            .collect();

        assert_eq!(pure, persisted, "len {len}: chunk id streams diverged");
        // And the ranges reconstruct the input in order.
        let reassembled: Vec<u8> = chunk_bytes(&data)
            .into_iter()
            .flat_map(|(_, r)| data[r].to_vec())
            .collect();
        assert_eq!(reassembled, data, "len {len}: ranges do not tile the input");
    }
}

/// A row of a tombstone.
fn tombstone_row(id: i64, path: &str, clock: &VectorClock) -> VersionRow {
    let pairs: std::collections::BTreeMap<u64, u64> =
        clock.iter().iter().map(|(r, n)| (r.0, *n)).collect();
    VersionRow {
        id,
        path: path.to_owned(),
        state: 0,
        content_hash: None,
        size: None,
        manifest: None,
        clock: postcard::to_allocvec(&pairs).unwrap(),
        replica: 1,
        wall_ms: 0,
        origin: 0,
        exec_bit: 0,
    }
}

#[test]
fn migrates_a_v2_database_with_duplicate_rows_to_the_v3_identity_index() {
    // THREE identical (path, state, clock) rows, a distinct one, and a conflict
    // that references a duplicate: the duplicates collapse to the lowest
    // identifier, and the conflict is repointed to it.
    let c = clock_ticked(1, 1);
    let versions = vec![
        tombstone_row(1, "dup.txt", &c),
        tombstone_row(2, "dup.txt", &c),
        tombstone_row(3, "dup.txt", &c),
        tombstone_row(4, "other.txt", &clock_ticked(2, 1)),
    ];
    let conflicts = vec![ConflictRow {
        id: 1,
        path: "dup.txt".to_owned(),
        winner: 3,
        loser: 4,
        wall_ms: 0,
        resolved: 0,
    }];
    let mut store = HistoryStore::from_rows(Vec::new(), versions, conflicts, 4, 1).unwrap();
    store.dedup_versions();
    let log = store.log(&RelPath::new("dup.txt").unwrap()).unwrap();
    assert_eq!(log.len(), 1, "duplicates collapsed to one row");
    assert_eq!(log[0].id, VersionId(1), "the lowest id survives");
    let conflicts = store.conflicts(false).unwrap();
    assert_eq!(conflicts.len(), 1);
    assert_eq!(
        conflicts[0].winner,
        VersionId(1),
        "winner repointed to survivor"
    );
    assert_eq!(conflicts[0].loser, VersionId(4));
    assert!(store.check("ok").ok, "db check green afterwards");
    // A fresh re-record of the same identity is a no-op.
    store
        .record_version(
            &RelPath::new("dup.txt").unwrap(),
            &EntryState::Tombstone,
            &c,
            ReplicaId(1),
            Origin::Local,
            0,
            None,
        )
        .unwrap();
    assert_eq!(
        store.log(&RelPath::new("dup.txt").unwrap()).unwrap().len(),
        1
    );
    // Collapsing again changes nothing.
    let again = store.clone();
    store.dedup_versions();
    assert_eq!(store, again);
}

// ---- rows that are not as they should be ---------------------------------

#[test]
fn rows_that_contradict_each_other_are_refused() {
    let c = clock_ticked(1, 1);
    // Identifiers out of order.
    let rows = vec![tombstone_row(2, "a", &c), tombstone_row(1, "b", &c)];
    assert!(HistoryStore::from_rows(Vec::new(), rows, Vec::new(), 2, 0).is_none());
    // A conflict without its versions.
    let conflicts = vec![ConflictRow {
        id: 1,
        path: "a".to_owned(),
        winner: 1,
        loser: 2,
        wall_ms: 0,
        resolved: 0,
    }];
    assert!(HistoryStore::from_rows(Vec::new(), Vec::new(), conflicts, 0, 1).is_none());
}

#[test]
fn rows_that_cannot_be_read_are_errors() {
    let mut row = tombstone_row(1, "a", &clock_ticked(1, 1));
    row.clock = vec![0xff];
    let store = HistoryStore::from_rows(Vec::new(), vec![row], Vec::new(), 1, 0).unwrap();
    let err = store.log(&rp("a")).unwrap_err();
    assert_eq!(err, HistoryError::Clock(WireError::DeserializeUnexpectedEnd));
    assert_eq!(
        err.message(),
        "clock serialization error: Hit the end of buffer, expected more data"
    );
    let row = tombstone_row(1, "/bad", &clock_ticked(1, 1));
    let store = HistoryStore::from_rows(Vec::new(), vec![row], Vec::new(), 1, 0).unwrap();
    assert!(store.recent(1).is_err());
}

#[test]
fn a_missing_chunk_and_a_changed_manifest_are_told() {
    let mut store = HistoryStore::new();
    let bytes = pseudorandom(400_000, 3);
    let id = record_present(&mut store, &rp("f"), &bytes, 1, 1);
    // A chunk is gone.
    let mut chunks: Vec<ChunkRow> = store.chunk_rows().clone();
    chunks.pop();
    let gone = HistoryStore::from_rows(chunks, store.version_rows().clone(), Vec::new(), 1, 0)
        .unwrap();
    assert!(matches!(
        gone.get_content(id),
        Err(HistoryError::MissingChunk { .. })
    ));
    let report = gone.check("ok");
    assert!(!report.ok);
    assert!(!report.issues.is_empty());
    // The manifest lists the chunks in another order.
    let mut versions = store.version_rows().clone();
    let manifest = versions[0].manifest.take().unwrap();
    let mut parts: Vec<&[u8]> = manifest.chunks_exact(32).collect();
    parts.reverse();
    versions[0].manifest = Some(parts.concat());
    let swapped =
        HistoryStore::from_rows(store.chunk_rows().clone(), versions, Vec::new(), 1, 0).unwrap();
    assert!(matches!(
        swapped.get_content(id),
        Err(HistoryError::ContentMismatch { .. })
    ));
    // What the database itself says of its pages is told too.
    let report = store.check("page 3 is broken");
    assert!(!report.ok);
}

#[test]
fn content_is_found_by_its_hash() {
    let mut store = HistoryStore::new();
    record_present(&mut store, &rp("f"), b"some bytes", 1, 1);
    assert_eq!(
        store.content_by_hash(&sig_of(b"some bytes").hash).unwrap(),
        Some(b"some bytes".to_vec())
    );
    assert_eq!(store.content_by_hash(&sig_of(b"other").hash).unwrap(), None);
}

#[test]
fn history_errors_say_what_is_wrong() {
    let mut store = HistoryStore::new();
    let err = store
        .record_version(
            &rp("x"),
            &EntryState::Present(sig_of(b"data")),
            &clock_at(1, 1),
            ReplicaId(1),
            Origin::Local,
            0,
            None,
        )
        .unwrap_err();
    assert!(err.message().contains('x'));
    assert!(HistoryError::NoSuchVersion(7).message().contains('7'));
}

#[test]
fn content_is_read_back_whatever_comes_later() {
    let mut store = fresh_store();
    let path = rp("f.txt");
    let first = pseudorandom(200_000, 1);
    let id = record_present(&mut store, &path, &first, 1, 1);
    let empty = record_present(&mut store, &rp("empty"), b"", 1, 1);
    let gone = store
        .record_version(
            &path,
            &EntryState::Tombstone,
            &clock_at(1, 2),
            ReplicaId(1),
            Origin::Local,
            0,
            None,
        )
        .unwrap();
    for n in 3..6u64 {
        record_present(&mut store, &path, &pseudorandom(150_000, n), 1, n);
    }
    let state = EntryState::Present(sig_of(b"batch"));
    let clock = clock_at(2, 1);
    store
        .record_versions(&[VersionRecord {
            path: &path,
            state: &state,
            clock: &clock,
            replica: ReplicaId(2),
            origin: Origin::Remote,
            wall_ms: 1,
            bytes: Some(b"batch"),
        }])
        .unwrap();
    store.store_content(&pseudorandom(300_000, 9)).unwrap();
    store.record_conflict(&path, id, gone, 5).unwrap();
    assert_eq!(store.get_content(id).unwrap(), first);
    assert_eq!(store.get_content(empty).unwrap(), Vec::<u8>::new());
    assert!(matches!(
        store.get_content(gone),
        Err(HistoryError::NotPresent(_))
    ));
}

#[test]
fn a_version_has_one_row_whatever_comes_with_it() {
    let mut store = fresh_store();
    let path = rp("f.txt");
    let id = record_present(&mut store, &path, b"one", 1, 1);
    record_present(&mut store, &path, b"two", 1, 2);
    let before = store.version_rows().clone();
    for wall_ms in 0..3 {
        let again = store
            .record_version(
                &path,
                &EntryState::Present(sig_of(b"other")),
                &clock_at(1, 1),
                ReplicaId(9),
                Origin::Remote,
                wall_ms,
                Some(b"other"),
            )
            .unwrap();
        assert_eq!(again, id);
    }
    assert_eq!(store.version_rows(), &before);
    assert_eq!(store.get_content(id).unwrap(), b"one");
}

#[test]
fn a_conflict_of_unknown_versions_fails_as_the_database_does() {
    let mut store = fresh_store();
    let path = rp("p");
    let real = record_present(&mut store, &path, b"x", 1, 1);
    let bogus = VersionId(9999);
    for (winner, loser) in [(real, bogus), (bogus, real), (bogus, bogus)] {
        let before = store.clone();
        let err = store.record_conflict(&path, winner, loser, 0).unwrap_err();
        assert_eq!(
            err,
            HistoryError::Sqlite("FOREIGN KEY constraint failed".to_owned())
        );
        assert_eq!(err.message(), "sqlite error: FOREIGN KEY constraint failed");
        assert_eq!(store.conflict_rows(), before.conflict_rows());
        assert_eq!(store.last_ids(), before.last_ids());
    }
    assert!(store.record_conflict(&path, real, real, 0).is_ok());
}

#[test]
fn a_missing_row_is_refused_by_sqlite_in_these_words() {
    let conn = rusqlite::Connection::open_in_memory().unwrap();
    conn.execute_batch(
        "PRAGMA foreign_keys=ON; CREATE TABLE v (id INTEGER PRIMARY KEY); \
         CREATE TABLE c (w INTEGER NOT NULL REFERENCES v(id));",
    )
    .unwrap();
    let err = conn.execute("INSERT INTO c (w) VALUES (7)", []).unwrap_err();
    assert_eq!(err.to_string(), "FOREIGN KEY constraint failed");
}

#[test]
fn a_batch_recorded_again_changes_nothing() {
    let mut store = fresh_store();
    let (a, b) = (rp("a"), rp("b"));
    let (ca, cb) = (clock_at(1, 1), clock_at(2, 1));
    let content = pseudorandom(150_000, 4);
    let present = EntryState::Present(sig_of(&content));
    let gone = EntryState::Tombstone;
    let batch = [
        VersionRecord {
            path: &a,
            state: &present,
            clock: &ca,
            replica: ReplicaId(1),
            origin: Origin::Local,
            wall_ms: 5,
            bytes: Some(&content),
        },
        VersionRecord {
            path: &b,
            state: &gone,
            clock: &cb,
            replica: ReplicaId(2),
            origin: Origin::Remote,
            wall_ms: 6,
            bytes: None,
        },
    ];
    let ids = store.record_versions(&batch).unwrap();
    let once = store.clone();
    assert_eq!(store.record_versions(&batch).unwrap(), ids);
    assert_eq!(store.version_rows(), once.version_rows());
    assert_eq!(store.chunk_rows(), once.chunk_rows());
    // And after something else was recorded.
    record_present(&mut store, &a, b"newer", 1, 2);
    let later = store.clone();
    assert_eq!(store.record_versions(&batch).unwrap(), ids);
    assert_eq!(store.version_rows(), later.version_rows());
    assert_eq!(store.chunk_rows(), later.chunk_rows());
}

#[test]
fn damage_elsewhere_does_not_touch_new_content() {
    let mut store = fresh_store();
    let old = record_present(&mut store, &rp("old"), b"old bytes", 1, 1);
    let mut damaged = with_first_chunk(&store, vec![1, 2, 3]);
    assert!(damaged.get_content(old).is_err());
    let content = pseudorandom(200_000, 8);
    let id = record_present(&mut damaged, &rp("new"), &content, 1, 2);
    assert_eq!(damaged.get_content(id).unwrap(), content);
}
