//! Entries, their heads, and the index.

use tomo::clock::{Causality, ReplicaId, VectorClock};
use tomo::index::{AbsorbOutcome, ContentHash, ContentSig, Entry, EntryState, Index};
use tomo::message::Message;
use tomo::path::RelPath;


fn sig(byte: u8, size: u64) -> ContentSig {
    ContentSig {
        hash: ContentHash([byte; 32]),
        size,
        exec_bit: false,
        mtime_ms: 0,
    }
}

/// The same content as [`sig`] but with the executable bit set.
fn sig_x(byte: u8, size: u64) -> ContentSig {
    ContentSig {
        exec_bit: true,
        ..sig(byte, size)
    }
}

/// The same content as [`sig`] but stamped with a specific mtime — for the
/// adoption-mode tests (mtime is carried metadata, not identity).
fn sig_t(byte: u8, size: u64, mtime_ms: u64) -> ContentSig {
    ContentSig {
        mtime_ms,
        ..sig(byte, size)
    }
}

fn present(byte: u8, size: u64) -> Entry {
    Entry::single(VectorClock::new(), EntryState::Present(sig(byte, size)))
}

fn clock(pairs: &[(u64, u64)]) -> VectorClock {
    let mut v = VectorClock::new();
    for &(r, count) in pairs {
        for _ in 0..count {
            v.tick(ReplicaId(r));
        }
    }
    v
}

#[test]
fn content_hash_hex_display() {
    let mut bytes = [0u8; 32];
    bytes[0] = 0x0f;
    bytes[31] = 0xa0;
    let h = ContentHash(bytes);
    let s = h.to_hex();
    assert_eq!(s.len(), 64);
    assert!(s.starts_with("0f"));
    assert!(s.ends_with("a0"));
}

#[test]
fn upsert_get_and_replace() {
    let mut idx = Index::new();
    assert!(idx.is_empty());
    let p = RelPath::new("a/b.txt").unwrap();

    assert!(idx.upsert(p.clone(), present(1, 10)).is_none());
    assert_eq!(idx.len(), 1);
    assert_eq!(idx.get(&p), Some(&present(1, 10)));

    let prev = idx.upsert(p.clone(), present(2, 20));
    assert_eq!(prev, Some(present(1, 10)));
    assert_eq!(idx.get(&p), Some(&present(2, 20)));
    assert_eq!(idx.len(), 1);
}

#[test]
fn single_entry_winner_is_itself() {
    let e = present(1, 5);
    assert_eq!(e.heads().len(), 1);
    assert_eq!(e.winner().state, EntryState::Present(sig(1, 5)));
}

#[test]
fn tombstone_head_is_retained_and_distinct() {
    let mut idx = Index::new();
    let p = RelPath::new("gone.txt").unwrap();
    idx.upsert(p.clone(), present(1, 5));
    let tomb = Entry::single(VectorClock::new(), EntryState::Tombstone);
    idx.upsert(p.clone(), tomb.clone());
    assert_eq!(idx.get(&p), Some(&tomb));
    assert_eq!(idx.len(), 1);
}

#[test]
fn iter_is_sorted_by_path() {
    let mut idx = Index::new();
    idx.upsert(RelPath::new("b").unwrap(), present(1, 1));
    idx.upsert(RelPath::new("a").unwrap(), present(1, 1));
    idx.upsert(RelPath::new("a/c").unwrap(), present(1, 1));
    let paths: Vec<&str> = idx.iter().iter().map(|(p, _)| p.as_str()).collect();
    assert_eq!(paths, ["a", "a/c", "b"]);
}

#[test]
fn canonical_bytes_is_insertion_order_independent() {
    let mut a = Index::new();
    a.upsert(RelPath::new("x").unwrap(), present(1, 1));
    a.upsert(RelPath::new("y").unwrap(), present(2, 2));
    let mut b = Index::new();
    b.upsert(RelPath::new("y").unwrap(), present(2, 2));
    b.upsert(RelPath::new("x").unwrap(), present(1, 1));
    assert_eq!(a.canonical_bytes(), b.canonical_bytes());
}

// ---- Executable bit ---------------------------------------------------

#[test]
fn content_sig_equality_includes_exec() {
    // Identical bytes (same hash+size) but a different execute bit are NOT
    // equal signatures — the whole point of exec riding in the sig.
    assert_ne!(sig(1, 10), sig_x(1, 10));
    assert_eq!(sig_x(1, 10), sig_x(1, 10));
    // The content hash itself is unchanged (CAS dedup unaffected).
    assert_eq!(sig(1, 10).hash, sig_x(1, 10).hash);
}

#[test]
fn canonical_bytes_differ_on_exec_only() {
    // A chmod-only change must alter the canonical digest so it converges
    // and re-syncs (otherwise the equal-roots invariant would hide it).
    let mut plain = Index::new();
    plain.upsert(
        RelPath::new("s").unwrap(),
        Entry::single(VectorClock::new(), EntryState::Present(sig(1, 10))),
    );
    let mut exec = Index::new();
    exec.upsert(
        RelPath::new("s").unwrap(),
        Entry::single(VectorClock::new(), EntryState::Present(sig_x(1, 10))),
    );
    assert_ne!(plain.canonical_bytes(), exec.canonical_bytes());
}

#[test]
fn concurrent_same_hash_different_exec_has_deterministic_winner() {
    // Same bytes, different execute bit, concurrent clocks: a real
    // divergence. Both replicas must pick the identical winner regardless
    // of the order they absorb the two heads.
    let mut a = Entry::single(clock(&[(1, 1)]), EntryState::Present(sig(4, 2)));
    a.absorb(clock(&[(2, 1)]), EntryState::Present(sig_x(4, 2)));
    let mut b = Entry::single(clock(&[(2, 1)]), EntryState::Present(sig_x(4, 2)));
    b.absorb(clock(&[(1, 1)]), EntryState::Present(sig(4, 2)));
    assert!(encoded_alike(&a, &b));
    // The executable head wins the hash tie (deterministic, not clock-based).
    assert_eq!(a.winner().state, EntryState::Present(sig_x(4, 2)));
    assert_eq!(b.winner().state, EntryState::Present(sig_x(4, 2)));
    // A same-content-different-exec pair is a genuine (surfaced) conflict.
    assert_eq!(a.heads().len(), 2);
}

// ---- mtime is metadata, not identity ----------------------------------

#[test]
fn content_sig_equality_ignores_mtime() {
    // Same bytes + mode, different mtime → equal signatures (mtime is
    // carried metadata, so a bare touch is not a change anywhere equality
    // is consulted).
    assert_eq!(sig_t(1, 10, 100), sig_t(1, 10, 999));
    assert_eq!(sig(1, 10), sig_t(1, 10, 42));
    // But a real content or exec difference still makes them unequal.
    assert_ne!(sig_t(1, 10, 100), sig_t(2, 10, 100));
    assert_ne!(sig_t(1, 10, 100), sig_x(1, 10));
}

#[test]
fn canonical_bytes_ignore_mtime() {
    // Two indices identical but for mtime must serialize to the same bytes,
    // so two replicas that agree on content converge even when their clones
    // stamped different mtimes (the equal-roots convergence assertion).
    let mut a = Index::new();
    a.upsert(
        RelPath::new("s").unwrap(),
        Entry::single(VectorClock::new(), EntryState::Present(sig_t(1, 10, 100))),
    );
    let mut b = Index::new();
    b.upsert(
        RelPath::new("s").unwrap(),
        Entry::single(VectorClock::new(), EntryState::Present(sig_t(1, 10, 900))),
    );
    assert_eq!(a.canonical_bytes(), b.canonical_bytes());
    assert_eq!(a, b);
}

// ---- Adoption mode (genesis disjoint-support tiebreak) -----------------

#[test]
fn adoption_mode_detects_disjoint_genesis_support() {
    // Two heads from different replicas, each a bare genesis clock: disjoint
    // support → adoption mode.
    let mut e = Entry::single(clock(&[(1, 1)]), EntryState::Present(sig(9, 1)));
    e.absorb(clock(&[(2, 1)]), EntryState::Present(sig(3, 1)));
    assert!(e.adoption_mode());
}

#[test]
fn adoption_mode_false_once_support_overlaps() {
    // Steady state: both heads' clocks include both replicas (they synced
    // once), so support overlaps → NOT adoption mode, mtime never consulted.
    let mut e = Entry::single(clock(&[(1, 2), (2, 1)]), EntryState::Present(sig(9, 1)));
    e.absorb(clock(&[(1, 1), (2, 2)]), EntryState::Present(sig(3, 1)));
    assert_eq!(e.heads().len(), 2);
    assert!(!e.adoption_mode());
}

#[test]
fn adoption_mode_false_for_single_head() {
    let e = present(1, 1);
    assert!(!e.adoption_mode());
}

#[test]
fn adoption_winner_takes_newer_mtime_over_higher_hash() {
    // The stale copy has the HIGHER hash (would win the standard rule) but an
    // OLDER mtime; the fresher copy has a lower hash. At genesis the newer
    // mtime must win on both replicas regardless of absorb order.
    let stale = sig_t(9, 1, 100); // higher hash, older
    let fresh = sig_t(3, 1, 500); // lower hash, newer
    let mut a = Entry::single(clock(&[(1, 1)]), EntryState::Present(stale));
    a.absorb(clock(&[(2, 1)]), EntryState::Present(fresh));
    let mut b = Entry::single(clock(&[(2, 1)]), EntryState::Present(fresh));
    b.absorb(clock(&[(1, 1)]), EntryState::Present(stale));
    assert_eq!(a.winner().state, EntryState::Present(fresh));
    assert_eq!(b.winner().state, EntryState::Present(fresh));
    assert!(encoded_alike(&a, &b));
}

#[test]
fn steady_state_ignores_mtime_and_uses_hash() {
    // Same disagreement (fresh mtime on the lower hash) but with overlapping
    // support (post-first-sync clocks): the STANDARD hash rule wins, so the
    // higher-hash head prevails even though its mtime is older.
    let older_high = sig_t(9, 1, 100);
    let newer_low = sig_t(3, 1, 500);
    let mut e = Entry::single(clock(&[(1, 2), (2, 1)]), EntryState::Present(older_high));
    e.absorb(clock(&[(1, 1), (2, 2)]), EntryState::Present(newer_low));
    assert!(!e.adoption_mode());
    assert_eq!(e.winner().state, EntryState::Present(older_high));
}

#[test]
fn adoption_mtime_tie_falls_through_to_hash() {
    // Equal mtimes at genesis → the standard hash tiebreak decides.
    let mut e = Entry::single(clock(&[(1, 1)]), EntryState::Present(sig_t(3, 1, 500)));
    e.absorb(clock(&[(2, 1)]), EntryState::Present(sig_t(9, 1, 500)));
    assert!(e.adoption_mode());
    assert_eq!(e.winner().state, EntryState::Present(sig_t(9, 1, 500)));
}

#[test]
fn adoption_present_beats_tombstone_before_mtime() {
    // Present outranks Tombstone even in adoption mode (degenerate: a
    // tombstone carries no mtime). Total order stays total.
    let mut e = Entry::single(clock(&[(1, 1)]), EntryState::Tombstone);
    e.absorb(clock(&[(2, 1)]), EntryState::Present(sig_t(1, 1, 1)));
    assert!(e.adoption_mode());
    assert_eq!(e.winner().state, EntryState::Present(sig_t(1, 1, 1)));
}

// ---- Head-set / absorb algebra ----------------------------------------

#[test]
fn absorb_stale_version_is_already_known() {
    // Head at {A:2}; a stale {A:1} is dominated.
    let mut e = Entry::single(clock(&[(1, 2)]), EntryState::Present(sig(1, 1)));
    let out = e.absorb(clock(&[(1, 1)]), EntryState::Present(sig(2, 2)));
    assert_eq!(out, AbsorbOutcome::AlreadyKnown);
    assert_eq!(e.heads().len(), 1);
}

#[test]
fn absorb_dominating_version_fast_forwards() {
    let mut e = Entry::single(clock(&[(1, 1)]), EntryState::Present(sig(1, 1)));
    let out = e.absorb(clock(&[(1, 2)]), EntryState::Present(sig(2, 2)));
    assert_eq!(
        out,
        AbsorbOutcome::Absorbed {
            winner_changed: true,
            new_conflict: false,
            novel_content: true,
        }
    );
    assert_eq!(e.heads().len(), 1);
    assert_eq!(e.winner().state, EntryState::Present(sig(2, 2)));
}

#[test]
fn absorb_concurrent_creates_conflict() {
    let mut e = Entry::single(clock(&[(1, 1)]), EntryState::Present(sig(9, 1)));
    let out = e.absorb(clock(&[(2, 1)]), EntryState::Present(sig(3, 1)));
    assert!(matches!(
        out,
        AbsorbOutcome::Absorbed {
            new_conflict: true,
            ..
        }
    ));
    assert_eq!(e.heads().len(), 2);
    // Higher hash wins.
    assert_eq!(e.winner().state, EntryState::Present(sig(9, 1)));
}

#[test]
fn absorb_identical_content_concurrently_is_not_a_conflict() {
    let mut e = Entry::single(clock(&[(1, 1)]), EntryState::Present(sig(5, 1)));
    let out = e.absorb(clock(&[(2, 1)]), EntryState::Present(sig(5, 1)));
    assert_eq!(
        out,
        AbsorbOutcome::Absorbed {
            winner_changed: false,
            new_conflict: false,
            novel_content: false,
        }
    );
    assert_eq!(e.heads().len(), 2);
    assert_eq!(e.winner().state, EntryState::Present(sig(5, 1)));
}

#[test]
fn merged_clock_covers_all_heads() {
    let mut e = Entry::single(clock(&[(1, 1)]), EntryState::Present(sig(9, 1)));
    e.absorb(clock(&[(2, 1)]), EntryState::Present(sig(3, 1)));
    let m = e.merged_clock();
    assert_eq!(m.get(ReplicaId(1)), 1);
    assert_eq!(m.get(ReplicaId(2)), 1);
}

#[test]
fn winner_present_beats_tombstone_regardless_of_order() {
    let mut a = Entry::single(clock(&[(1, 1)]), EntryState::Present(sig(1, 1)));
    a.absorb(clock(&[(2, 1)]), EntryState::Tombstone);
    let mut b = Entry::single(clock(&[(2, 1)]), EntryState::Tombstone);
    b.absorb(clock(&[(1, 1)]), EntryState::Present(sig(1, 1)));
    assert_eq!(a.winner().state, EntryState::Present(sig(1, 1)));
    assert_eq!(b.winner().state, EntryState::Present(sig(1, 1)));
    assert!(encoded_alike(&a, &b));
}

/// Whether two entries are encoded alike.
fn encoded_alike(a: &Entry, b: &Entry) -> bool {
    let bytes = |e: &Entry| {
        let mut i = Index::new();
        i.upsert(RelPath::new("p").unwrap(), e.clone());
        i.canonical_bytes()
    };
    bytes(a) == bytes(b)
}

/// A small deterministic source of numbers.
struct Numbers(u64);

impl Numbers {
    fn below(&mut self, n: u64) -> u64 {
        self.0 = self
            .0
            .wrapping_mul(6_364_136_223_846_793_005)
            .wrapping_add(1_442_695_040_888_963_407);
        (self.0 >> 33) % n
    }
}

/// A head whose state is determined by its clock.
fn head(n: &mut Numbers) -> (VectorClock, EntryState) {
    let mut version = VectorClock::new();
    let mut key: u64 = 0;
    for r in 0..3 {
        let count = n.below(4);
        for _ in 0..count {
            version.tick(ReplicaId(r));
        }
        key += (r + 1) * count * 5;
    }
    let state = if key % 4 == 0 {
        EntryState::Tombstone
    } else {
        EntryState::Present(sig_t((key % 7) as u8, key, key * 31 % 5))
    };
    (version, state)
}

fn folded(heads: &[(VectorClock, EntryState)]) -> Entry {
    let mut e = Entry::single(heads[0].0.clone(), heads[0].1);
    for (v, s) in &heads[1..] {
        e.absorb(v.clone(), *s);
    }
    e
}

#[test]
fn heads_are_a_nonempty_antichain() {
    let mut n = Numbers(1);
    for _ in 0..100 {
        let heads: Vec<_> = (0..5).map(|_| head(&mut n)).collect();
        let e = folded(&heads);
        assert!(!e.heads().is_empty());
        for (i, h) in e.heads().iter().enumerate() {
            for other in &e.heads()[i + 1..] {
                assert_eq!(h.version.compare(&other.version), Causality::Concurrent);
            }
        }
    }
}

#[test]
fn absorb_is_idempotent() {
    let mut n = Numbers(2);
    for _ in 0..100 {
        let heads: Vec<_> = (0..4).map(|_| head(&mut n)).collect();
        let e = folded(&heads);
        let mut again = e.clone();
        for h in e.heads() {
            assert_eq!(
                again.absorb(h.version.clone(), h.state),
                AbsorbOutcome::AlreadyKnown
            );
        }
        assert!(encoded_alike(&e, &again));
    }
}

#[test]
fn absorb_is_order_insensitive() {
    let mut n = Numbers(3);
    for _ in 0..100 {
        let mut heads: Vec<_> = (0..5).map(|_| head(&mut n)).collect();
        let forward = folded(&heads);
        heads.rotate_left(n.below(5) as usize);
        heads.reverse();
        assert!(encoded_alike(&forward, &folded(&heads)));
    }
}

#[test]
fn canonical_bytes_iff_equal() {
    let mut n = Numbers(4);
    let mut seen: Vec<Index> = Vec::new();
    for _ in 0..30 {
        let mut idx = Index::new();
        for _ in 0..n.below(3) {
            let name = ["a", "b", "c"][n.below(3) as usize];
            let heads = vec![head(&mut n), head(&mut n)];
            idx.upsert(RelPath::new(name).unwrap(), folded(&heads));
        }
        assert_eq!(idx.canonical_bytes(), idx.clone().canonical_bytes());
        for other in &seen {
            assert_eq!(*other == idx, other.canonical_bytes() == idx.canonical_bytes());
        }
        seen.push(idx);
    }
}

/// A clock with exactly these counters, zeros too, as it comes over the wire.
fn written_clock(pairs: &[(u64, u64)]) -> VectorClock {
    let none: Option<Vec<u8>> = None;
    let payload = postcard::to_allocvec(&(2u32, "f", 1u32, pairs, none)).unwrap();
    match Message::from_payload(&payload) {
        Ok(Message::Change { change, .. }) => change.version,
        other => panic!("unexpected: {other:?}"),
    }
}

#[test]
fn a_counter_of_zero_is_no_support() {
    let a = written_clock(&[(1, 0), (2, 1)]);
    let b = written_clock(&[(1, 1)]);
    assert_eq!(a.compare(&b), Causality::Concurrent);
    let mut e = Entry::single(a.clone(), EntryState::Present(sig_t(0xff, 1, 10)));
    e.absorb(b.clone(), EntryState::Present(sig_t(0x01, 1, 20)));
    assert!(e.adoption_mode());
    assert_eq!(e.winner().state, EntryState::Present(sig_t(0x01, 1, 20)));
    let mut f = Entry::single(b, EntryState::Present(sig_t(0x01, 1, 20)));
    f.absorb(a, EntryState::Present(sig_t(0xff, 1, 10)));
    assert!(f.adoption_mode());
    assert_eq!(f.winner().state, e.winner().state);
}
