//! The engine: local and remote changes, echoes, conflicts, reconciliation.

use std::collections::BTreeSet;
use tomo::clock::{ReplicaId, VectorClock};
use tomo::engine::{Action, Engine, Event, Expectation};
use tomo::event::{ChangeKind, LocalChange, RemoteChange};
use tomo::index::{ContentHash, ContentSig, Entry, EntryState, Index};
use tomo::path::RelPath;

const A: ReplicaId = ReplicaId(1);
const B: ReplicaId = ReplicaId(2);

// Size is tied to the hash byte so equal hashes always imply equal
// signatures — matching the "equal hash ⇒ identical content" contract.
fn sig(byte: u8) -> ContentSig {
    ContentSig {
        hash: ContentHash([byte; 32]),
        size: u64::from(byte),
        exec_bit: false,
        mtime_ms: 0,
    }
}

/// The same content as [`sig`] but marked executable — for the chmod-only
/// change and same-content-different-exec conflict tests.
fn sig_x(byte: u8) -> ContentSig {
    ContentSig {
        exec_bit: true,
        ..sig(byte)
    }
}

/// The same content as [`sig`] but stamped with a specific mtime (carried
/// metadata) — for the genesis adoption tests.
fn sig_t(byte: u8, mtime_ms: u64) -> ContentSig {
    ContentSig {
        mtime_ms,
        ..sig(byte)
    }
}

fn modified(path: &str, byte: u8) -> Event {
    Event::Local(LocalChange {
        path: RelPath::new(path).unwrap(),
        kind: ChangeKind::Modified(sig(byte)),
    })
}

/// A genesis-style concurrent pair for "f": A holds `a` at {A:1}, B holds
/// `b` at {B:1}, returning each side's outbound change (as if freshly
/// scanned from two pre-existing trees).
fn genesis_pair(a: ContentSig, b: ContentSig) -> (Engine, Engine, RemoteChange, RemoteChange) {
    let mut ea = engine(A);
    let mut eb = engine(B);
    let a_send = one_send(ea.handle(Event::Local(LocalChange {
        path: rp("f"),
        kind: ChangeKind::Modified(a),
    })));
    let b_send = one_send(eb.handle(Event::Local(LocalChange {
        path: rp("f"),
        kind: ChangeKind::Modified(b),
    })));
    (ea, eb, a_send, b_send)
}

fn removed(path: &str) -> Event {
    Event::Local(LocalChange {
        path: RelPath::new(path).unwrap(),
        kind: ChangeKind::Removed,
    })
}

fn rp(path: &str) -> RelPath {
    RelPath::new(path).unwrap()
}

fn engine(replica: ReplicaId) -> Engine {
    Engine::new(replica, Index::new())
}

fn winner_state(e: &Engine, path: &str) -> EntryState {
    e.index().get(&rp(path)).unwrap().winner().state
}

// ---- Echo journal accessor -------------------------------------------

#[test]
fn is_expected_echo_reflects_outstanding_apply_read_only() {
    let mut e = engine(A);
    // A remote change for an unseen path emits an Apply, journaling an echo
    // expectation for its materialized winner.
    let mut clock = VectorClock::new();
    clock.tick(B);
    let actions = e.handle(Event::Remote(RemoteChange {
        path: rp("a.txt"),
        kind: ChangeKind::Modified(sig(9)),
        version: clock,
    }));
    assert!(actions.iter().any(|a| matches!(a, Action::Apply { .. })));

    // The journal expects exactly Present(sig(9)) at a.txt — nothing else.
    assert!(e.is_expected_echo(&rp("a.txt"), &Expectation::Present(sig(9))));
    assert!(!e.is_expected_echo(&rp("a.txt"), &Expectation::Present(sig(7))));
    assert!(!e.is_expected_echo(&rp("a.txt"), &Expectation::Absent));
    assert!(!e.is_expected_echo(&rp("b.txt"), &Expectation::Present(sig(9))));

    // Read-only: asking again still reports it (nothing was retired).
    assert!(e.is_expected_echo(&rp("a.txt"), &Expectation::Present(sig(9))));

    // The echoing local event retires it; then it is no longer expected.
    assert!(e.handle(modified("a.txt", 9)).is_empty(), "echo swallowed");
    assert!(!e.is_expected_echo(&rp("a.txt"), &Expectation::Present(sig(9))));
}

// ---- Local events -----------------------------------------------------

#[test]
fn local_modified_new_file_sends_and_records() {
    let mut e = engine(A);
    let actions = e.handle(modified("a.txt", 1));
    assert_eq!(actions.len(), 2);
    match &actions[0] {
        Action::Send(rc) => {
            assert_eq!(rc.path, rp("a.txt"));
            assert_eq!(rc.kind, ChangeKind::Modified(sig(1)));
            assert_eq!(rc.version.get(A), 1);
        }
        other => panic!("expected Send, got {other:?}"),
    }
    assert!(matches!(&actions[1], Action::RecordVersion { .. }));
    let entry = e.index().get(&rp("a.txt")).unwrap();
    assert_eq!(entry.winner().state, EntryState::Present(sig(1)));
    assert_eq!(entry.winner().version.get(A), 1);
}

#[test]
fn local_modified_same_content_is_spurious() {
    let mut e = engine(A);
    e.handle(modified("a.txt", 1));
    let actions = e.handle(modified("a.txt", 1));
    assert!(actions.is_empty());
    assert_eq!(
        e.index().get(&rp("a.txt")).unwrap().winner().version.get(A),
        1
    );
}

#[test]
fn local_chmod_only_is_not_spurious_and_propagates() {
    // Same bytes, execute bit flipped on: a real change (sig equality
    // includes exec), so it ticks the clock, ships, and records a version —
    // it is NOT swallowed as a spurious same-content event.
    let mut e = engine(A);
    e.handle(modified("s", 1)); // sig(1), non-exec
    let actions = e.handle(Event::Local(LocalChange {
        path: rp("s"),
        kind: ChangeKind::Modified(sig_x(1)),
    }));
    assert_eq!(actions.len(), 2, "chmod ships + records");
    assert!(matches!(
        &actions[0],
        Action::Send(rc) if rc.kind == ChangeKind::Modified(sig_x(1))
    ));
    let entry = e.index().get(&rp("s")).unwrap();
    assert_eq!(entry.winner().state, EntryState::Present(sig_x(1)));
    assert_eq!(entry.winner().version.get(A), 2);
}

#[test]
fn remote_chmod_applies_the_new_mode() {
    // A peer flips the execute bit on a file we already hold: the winner
    // moves, so we Apply the executable signature.
    let mut e = engine(A);
    e.handle(modified("s", 1)); // {A:1}, non-exec
    let mut v = VectorClock::new();
    v.tick(A);
    v.tick(A); // {A:2} dominates: fast-forward the chmod
    let actions = e.handle(Event::Remote(RemoteChange {
        path: rp("s"),
        kind: ChangeKind::Modified(sig_x(1)),
        version: v,
    }));
    assert!(actions.iter().any(
        |a| matches!(a, Action::Apply { target: Expectation::Present(s), .. } if *s == sig_x(1))
    ));
    assert_eq!(winner_state(&e, "s"), EntryState::Present(sig_x(1)));
}

#[test]
fn concurrent_same_content_different_exec_converges() {
    // A marks a file executable; B keeps the identical bytes non-executable;
    // concurrent. Both replicas converge to the identical winner with the
    // executable head winning the hash tie (deterministic).
    let mut a = engine(A);
    let mut b = engine(B);
    let a_send = one_send(a.handle(Event::Local(LocalChange {
        path: rp("f"),
        kind: ChangeKind::Modified(sig_x(5)),
    })));
    let b_send = one_send(b.handle(modified("f", 5)));
    a.handle(Event::Remote(b_send));
    b.handle(Event::Remote(a_send));
    assert_eq!(a.index().canonical_bytes(), b.index().canonical_bytes());
    assert_eq!(winner_state(&a, "f"), EntryState::Present(sig_x(5)));
    assert_eq!(winner_state(&b, "f"), EntryState::Present(sig_x(5)));
}

#[test]
fn local_modified_existing_ticks_clock() {
    let mut e = engine(A);
    e.handle(modified("a.txt", 1));
    e.handle(modified("a.txt", 2));
    let entry = e.index().get(&rp("a.txt")).unwrap();
    assert_eq!(entry.winner().state, EntryState::Present(sig(2)));
    assert_eq!(entry.winner().version.get(A), 2);
    assert_eq!(entry.heads().len(), 1);
}

#[test]
fn local_removed_present_sends_tombstone() {
    let mut e = engine(A);
    e.handle(modified("a.txt", 1));
    let actions = e.handle(removed("a.txt"));
    assert_eq!(actions.len(), 2);
    assert!(matches!(
        &actions[0],
        Action::Send(rc) if rc.kind == ChangeKind::Removed
    ));
    assert_eq!(winner_state(&e, "a.txt"), EntryState::Tombstone);
}

#[test]
fn local_removed_unknown_is_noop() {
    let mut e = engine(A);
    assert!(e.handle(removed("ghost.txt")).is_empty());
    assert!(e.index().get(&rp("ghost.txt")).is_none());
}

#[test]
fn local_removed_already_tombstoned_is_noop() {
    let mut e = engine(A);
    e.handle(modified("a.txt", 1));
    e.handle(removed("a.txt"));
    assert!(e.handle(removed("a.txt")).is_empty());
}

// ---- Echo suppression -------------------------------------------------

#[test]
fn apply_echo_is_suppressed_and_leaves_index_unchanged() {
    // A remote change makes us Apply Present(sig). The watcher then fires a
    // Local(Modified(sig)) echo, which must be swallowed.
    let mut e = engine(A);
    let mut v = VectorClock::new();
    v.tick(B);
    let apply = e
        .handle(Event::Remote(RemoteChange {
            path: rp("a.txt"),
            kind: ChangeKind::Modified(sig(9)),
            version: v,
        }))
        .into_iter()
        .find(|a| matches!(a, Action::Apply { .. }))
        .expect("remote to unseen path applies");
    let Action::Apply { target, .. } = apply else {
        unreachable!()
    };
    assert_eq!(target, Expectation::Present(sig(9)));

    let before = e.index().canonical_bytes();
    let echo = e.handle(modified("a.txt", 9));
    assert!(echo.is_empty(), "echo must produce no actions");
    assert_eq!(before, e.index().canonical_bytes(), "index must not change");
}

#[test]
fn removal_echo_is_suppressed() {
    let mut e = engine(A);
    e.handle(modified("a.txt", 1)); // clock {A:1}
    let mut v = VectorClock::new();
    v.tick(A);
    v.tick(A); // {A:2} strictly dominates: fast-forward delete
    let actions = e.handle(Event::Remote(RemoteChange {
        path: rp("a.txt"),
        kind: ChangeKind::Removed,
        version: v,
    }));
    assert!(actions.iter().any(|a| matches!(
        a,
        Action::Apply {
            target: Expectation::Absent,
            ..
        }
    )));
    // The delete echo.
    assert!(e.handle(removed("a.txt")).is_empty());
}

#[test]
fn non_matching_local_after_apply_is_processed() {
    // An Apply journals Present(sig9); a genuinely different local edit
    // (sig8) at the same path is NOT an echo and must be processed.
    let mut e = engine(A);
    let mut v = VectorClock::new();
    v.tick(B);
    e.handle(Event::Remote(RemoteChange {
        path: rp("a.txt"),
        kind: ChangeKind::Modified(sig(9)),
        version: v,
    }));
    let actions = e.handle(modified("a.txt", 8));
    assert!(!actions.is_empty(), "distinct local edit must propagate");
    assert_eq!(winner_state(&e, "a.txt"), EntryState::Present(sig(8)));
}

// ---- Remote events ----------------------------------------------------

#[test]
fn remote_unseen_present_applies_and_records() {
    let mut e = engine(A);
    let mut v = VectorClock::new();
    v.tick(B);
    let actions = e.handle(Event::Remote(RemoteChange {
        path: rp("a.txt"),
        kind: ChangeKind::Modified(sig(5)),
        version: v.clone(),
    }));
    assert!(actions.iter().any(|a| matches!(
        a,
        Action::Apply {
            target: Expectation::Present(_),
            ..
        }
    )));
    assert!(actions
        .iter()
        .any(|a| matches!(a, Action::RecordVersion { .. })));
    assert!(!actions.iter().any(|a| matches!(a, Action::Send(_))));
    let entry = e.index().get(&rp("a.txt")).unwrap();
    assert_eq!(entry.winner().version, v);
    assert_eq!(entry.winner().state, EntryState::Present(sig(5)));
}

#[test]
fn remote_removed_for_unseen_path_records_tombstone_without_apply() {
    let mut e = engine(A);
    let mut v = VectorClock::new();
    v.tick(B);
    let actions = e.handle(Event::Remote(RemoteChange {
        path: rp("a.txt"),
        kind: ChangeKind::Removed,
        version: v,
    }));
    assert!(!actions.iter().any(|a| matches!(a, Action::Apply { .. })));
    assert!(actions
        .iter()
        .any(|a| matches!(a, Action::RecordVersion { .. })));
    assert_eq!(winner_state(&e, "a.txt"), EntryState::Tombstone);
}

#[test]
fn remote_stale_change_is_ignored() {
    let mut e = engine(A);
    e.handle(modified("a.txt", 2)); // {A:1}
    let stale = RemoteChange {
        path: rp("a.txt"),
        kind: ChangeKind::Modified(sig(3)),
        version: VectorClock::new(),
    };
    let before = e.index().canonical_bytes();
    assert!(e.handle(Event::Remote(stale)).is_empty());
    assert_eq!(before, e.index().canonical_bytes());
}

#[test]
fn remote_before_fast_forwards() {
    let mut e = engine(A);
    e.handle(modified("a.txt", 1)); // {A:1}
    let mut v = VectorClock::new();
    v.tick(A);
    v.tick(A); // {A:2}: strictly dominates
    let actions = e.handle(Event::Remote(RemoteChange {
        path: rp("a.txt"),
        kind: ChangeKind::Modified(sig(4)),
        version: v.clone(),
    }));
    assert!(actions.iter().any(
        |a| matches!(a, Action::Apply { target: Expectation::Present(s), .. } if *s == sig(4))
    ));
    let entry = e.index().get(&rp("a.txt")).unwrap();
    assert_eq!(entry.winner().version, v);
    assert_eq!(entry.heads().len(), 1);
}

#[test]
fn remote_same_content_advances_clock_silently() {
    // A dominating remote version carrying identical content: the clock
    // advances but there is no new content — no Apply, no RecordVersion.
    let mut e = engine(A);
    e.handle(modified("a.txt", 1)); // {A:1}, content sig(1)
    let mut v = VectorClock::new();
    v.tick(A);
    v.tick(A); // {A:2}, same content sig(1)
    let actions = e.handle(Event::Remote(RemoteChange {
        path: rp("a.txt"),
        kind: ChangeKind::Modified(sig(1)),
        version: v.clone(),
    }));
    assert!(
        actions.is_empty(),
        "identical content is not versioned again"
    );
    assert_eq!(e.index().get(&rp("a.txt")).unwrap().winner().version, v);
}

// ---- Conflicts --------------------------------------------------------

fn concurrent_pair(a_byte: u8, b_byte: u8) -> (Engine, Engine, RemoteChange, RemoteChange) {
    let mut a = engine(A);
    let mut b = engine(B);
    let a_send = one_send(a.handle(modified("f", a_byte)));
    let b_send = one_send(b.handle(modified("f", b_byte)));
    (a, b, a_send, b_send)
}

fn one_send(actions: Vec<Action>) -> RemoteChange {
    actions
        .into_iter()
        .find_map(|a| match a {
            Action::Send(rc) => Some(rc),
            _ => None,
        })
        .expect("a Send was emitted")
}

#[test]
fn conflict_present_present_higher_hash_wins_both_orders() {
    // a_byte=9 (higher hash) beats b_byte=3 on both replicas.
    let (mut a, mut b, a_send, b_send) = concurrent_pair(9, 3);
    let a_actions = a.handle(Event::Remote(b_send));
    let b_actions = b.handle(Event::Remote(a_send));
    assert_eq!(winner_state(&a, "f"), EntryState::Present(sig(9)));
    assert_eq!(winner_state(&b, "f"), EntryState::Present(sig(9)));
    assert_eq!(a.index().canonical_bytes(), b.index().canonical_bytes());
    // The winner (A, holding sig9) applies nothing new; the loser (B) applies sig9.
    assert!(!a_actions.iter().any(|x| matches!(x, Action::Apply { .. })));
    assert!(b_actions.iter().any(
        |x| matches!(x, Action::Apply { target: Expectation::Present(s), .. } if *s == sig(9))
    ));
    // Both surface a ConflictResolved; neither re-sends.
    assert!(a_actions
        .iter()
        .any(|x| matches!(x, Action::ConflictResolved { .. })));
    assert!(b_actions
        .iter()
        .any(|x| matches!(x, Action::ConflictResolved { .. })));
    assert!(!a_actions.iter().any(|x| matches!(x, Action::Send(_))));
    assert!(!b_actions.iter().any(|x| matches!(x, Action::Send(_))));
    // Both keep two heads (the loser is preserved).
    assert_eq!(a.index().get(&rp("f")).unwrap().heads().len(), 2);
}

#[test]
fn conflict_delete_vs_edit_edit_wins() {
    // A edits f; B deletes f; concurrent. Present must beat Tombstone.
    let mut a = engine(A);
    let mut b = engine(B);
    let a_send = one_send(a.handle(modified("f", 7)));
    // Give B a copy first so it has something to delete, concurrently.
    b.handle(Event::Remote(RemoteChange {
        path: rp("f"),
        kind: ChangeKind::Modified(sig(1)),
        version: {
            let mut v = VectorClock::new();
            v.tick(B);
            v
        },
    }));
    let b_send = one_send(b.handle(removed("f")));
    let a_actions = a.handle(Event::Remote(b_send));
    b.handle(Event::Remote(a_send));
    assert_eq!(winner_state(&a, "f"), EntryState::Present(sig(7)));
    assert_eq!(winner_state(&b, "f"), EntryState::Present(sig(7)));
    // A (the editor) surfaces the resolved conflict with the delete as loser.
    let resolved = a_actions
        .iter()
        .find_map(|x| match x {
            Action::ConflictResolved { winner, loser, .. } => Some((*winner, *loser)),
            _ => None,
        })
        .expect("conflict surfaced");
    assert_eq!(resolved.0, EntryState::Present(sig(7)));
    assert_eq!(resolved.1, EntryState::Tombstone);
}

#[test]
fn genesis_adopts_newer_mtime_on_both_sides() {
    // First contact between two pre-existing trees: A's copy has the HIGHER
    // hash (would win the standard rule) but an OLDER mtime; B's copy is
    // newer. Adoption must pick B's copy on BOTH replicas, and mark the
    // ConflictResolved as `adopted` so the CLI words it as a first-sync
    // adoption rather than a mid-session clash.
    let a = sig_t(9, 100); // higher hash, older mtime
    let b = sig_t(3, 500); // lower hash, newer mtime
    let (mut ea, mut eb, a_send, b_send) = genesis_pair(a, b);
    let a_actions = ea.handle(Event::Remote(b_send));
    let b_actions = eb.handle(Event::Remote(a_send));
    assert_eq!(winner_state(&ea, "f"), EntryState::Present(b));
    assert_eq!(winner_state(&eb, "f"), EntryState::Present(b));
    assert_eq!(ea.index().canonical_bytes(), eb.index().canonical_bytes());
    // Both surface the resolution, flagged adopted.
    for actions in [&a_actions, &b_actions] {
        assert!(actions
            .iter()
            .any(|x| matches!(x, Action::ConflictResolved { adopted: true, .. })));
    }
    // A (the loser) applies B's bytes; B (the winner) applies nothing new.
    assert!(a_actions.iter().any(
        |x| matches!(x, Action::Apply { target: Expectation::Present(s), .. } if *s == b)
    ));
    assert!(!b_actions.iter().any(|x| matches!(x, Action::Apply { .. })));
}

#[test]
fn genesis_adopts_local_when_it_is_newer() {
    // Symmetric: A's copy is the newer one, so A's bytes win on both sides —
    // proving the rule follows mtime, not "remote always wins".
    let a = sig_t(3, 900); // lower hash, newer mtime
    let b = sig_t(9, 100); // higher hash, older mtime
    let (mut ea, mut eb, a_send, b_send) = genesis_pair(a, b);
    ea.handle(Event::Remote(b_send));
    eb.handle(Event::Remote(a_send));
    assert_eq!(winner_state(&ea, "f"), EntryState::Present(a));
    assert_eq!(winner_state(&eb, "f"), EntryState::Present(a));
}

#[test]
fn concurrent_identical_content_is_not_a_conflict() {
    let (mut a, _b, _a_send, b_send) = concurrent_pair(5, 5);
    let actions = a.handle(Event::Remote(b_send));
    assert!(!actions
        .iter()
        .any(|x| matches!(x, Action::ConflictResolved { .. })));
    assert!(!actions.iter().any(|x| matches!(x, Action::Apply { .. })));
    assert_eq!(winner_state(&a, "f"), EntryState::Present(sig(5)));
}

#[test]
fn concurrent_tombstones_merge_without_conflict() {
    // Both delete the same (independently-seen) file concurrently.
    let mut a = engine(A);
    let mut b = engine(B);
    for (e, r) in [(&mut a, A), (&mut b, B)] {
        e.handle(Event::Remote(RemoteChange {
            path: rp("f"),
            kind: ChangeKind::Modified(sig(1)),
            version: {
                let mut v = VectorClock::new();
                v.tick(r);
                v
            },
        }));
    }
    let a_send = one_send(a.handle(removed("f")));
    let b_send = one_send(b.handle(removed("f")));
    let a_actions = a.handle(Event::Remote(b_send));
    b.handle(Event::Remote(a_send));
    assert!(!a_actions
        .iter()
        .any(|x| matches!(x, Action::ConflictResolved { .. })));
    assert_eq!(a.index().canonical_bytes(), b.index().canonical_bytes());
}

// ---- Reconciliation ---------------------------------------------------

#[test]
fn peer_index_ships_local_only_paths() {
    let mut a = engine(A);
    a.handle(modified("only_a.txt", 1));
    let actions = a.handle(Event::PeerIndex(Index::new()));
    let sends: Vec<_> = actions
        .iter()
        .filter_map(|x| match x {
            Action::Send(rc) => Some(rc.path.clone()),
            _ => None,
        })
        .collect();
    assert_eq!(sends, vec![rp("only_a.txt")]);
}

#[test]
fn peer_index_applies_unseen_peer_paths() {
    let mut a = engine(A);
    let mut peer = Index::new();
    let mut v = VectorClock::new();
    v.tick(B);
    peer.upsert(
        rp("from_b.txt"),
        Entry::single(v, EntryState::Present(sig(2))),
    );
    let actions = a.handle(Event::PeerIndex(peer));
    assert!(actions.iter().any(|x| matches!(
        x,
        Action::Apply {
            target: Expectation::Present(_),
            ..
        }
    )));
    assert!(!actions.iter().any(|x| matches!(x, Action::Send(_))));
    assert!(a.index().get(&rp("from_b.txt")).is_some());
}

// ---- Reordered intermediates ------------------------------------------

/// A produces two causally-sequential versions (a1 then a2) and BOTH are
/// delivered to B, unfiltered, around B's concurrent edit. The two replicas
/// reach byte-identical indices.
#[test]
fn intermediate_reorder_now_converges() {
    let mut a = engine(A);
    let a1 = one_send(a.handle(modified("f", 9))); // {A:1}
    let a2 = one_send(a.handle(modified("f", 7))); // {A:2}

    let mut b = engine(B);
    let b1 = one_send(b.handle(modified("f", 5))); // {B:1}

    // A receives only b1 (its state is a2).
    a.handle(Event::Remote(b1));

    // B receives a1 then a2 (intermediate NOT coalesced).
    b.handle(Event::Remote(a1));
    b.handle(Event::Remote(a2));

    assert_eq!(a.index().canonical_bytes(), b.index().canonical_bytes());
    // Both materialize the same winner: sig(7) (a2) beats sig(5) (b1); the
    // superseded a1 (sig9) was dropped from the antichain.
    assert_eq!(winner_state(&a, "f"), EntryState::Present(sig(7)));
    assert_eq!(a.index().get(&rp("f")).unwrap().heads().len(), 2);
}

// ---- Arbitrary delivery -----------------------------------------------

/// Two replicas with unfiltered delivery in any order: every `Send` that a
/// replica emits is queued and delivered exactly once, in an order that the
/// test controls (superseded intermediate versions among them).
struct Sim {
    a: Engine,
    b: Engine,
    pending: Vec<(bool, RemoteChange)>, // (deliver_to_a, change)
}

#[derive(Debug, Clone)]
enum Op {
    Edit { on_a: bool, path: u8, byte: u8 },
    Delete { on_a: bool, path: u8 },
    Deliver(usize),
}

impl Sim {
    fn new() -> Self {
        Self {
            a: engine(A),
            b: engine(B),
            pending: Vec::new(),
        }
    }

    fn local(&mut self, on_a: bool, ev: Event) {
        let deliver_to_a = !on_a;
        let acts = if on_a {
            self.a.handle(ev)
        } else {
            self.b.handle(ev)
        };
        for act in acts {
            if let Action::Send(rc) = act {
                self.pending.push((deliver_to_a, rc));
            }
        }
    }

    fn deliver_one(&mut self, sel: usize) {
        if self.pending.is_empty() {
            return;
        }
        let idx = sel % self.pending.len();
        let (to_a, rc) = self.pending.remove(idx);
        // Remote handling never emits Send, so nothing to re-queue.
        let _ = if to_a {
            self.a.handle(Event::Remote(rc))
        } else {
            self.b.handle(Event::Remote(rc))
        };
    }

    fn drain(&mut self) {
        while let Some((to_a, rc)) = self.pending.pop() {
            let _ = if to_a {
                self.a.handle(Event::Remote(rc))
            } else {
                self.b.handle(Event::Remote(rc))
            };
        }
    }

    fn run(&mut self, ops: &[Op]) {
        for op in ops {
            match *op {
                Op::Edit { on_a, path, byte } => {
                    self.local(
                        on_a,
                        Event::Local(LocalChange {
                            path: rp(&format!("p{path}")),
                            kind: ChangeKind::Modified(sig(byte)),
                        }),
                    );
                }
                Op::Delete { on_a, path } => {
                    self.local(
                        on_a,
                        Event::Local(LocalChange {
                            path: rp(&format!("p{path}")),
                            kind: ChangeKind::Removed,
                        }),
                    );
                }
                Op::Deliver(sel) => self.deliver_one(sel),
            }
        }
        self.drain();
    }
}

/// Seed two engines with concurrent entries at "f", each optionally a
/// tombstone, returning the change each wants to send.
fn seed_concurrent(
    a_byte: u8,
    b_byte: u8,
    a_present: bool,
    b_present: bool,
) -> (Engine, Engine, RemoteChange, RemoteChange) {
    let mut a = engine(A);
    let mut b = engine(B);
    let a_send = if a_present {
        one_send(a.handle(modified("f", a_byte)))
    } else {
        a.handle(modified("f", a_byte));
        one_send(a.handle(removed("f")))
    };
    let b_send = if b_present {
        one_send(b.handle(modified("f", b_byte)))
    } else {
        b.handle(modified("f", b_byte));
        one_send(b.handle(removed("f")))
    };
    (a, b, a_send, b_send)
}

// ---- Reconciliation in batches ----------------------------------------
//
// For any diverged pair of indices, the stream of reconciling changes may be
// delivered to the peer in any partition into batches, in any order, with
// duplicates, and interleaved with the peer's own edits: both replicas reach
// byte-identical indices and identical winners.

/// A local op used to build one replica's pre-reconcile divergence. Edits
/// carry an mtime so genesis adoption (the mtime-first tiebreak) is
/// genuinely exercised, not just adoption *mode*.
#[derive(Debug, Clone)]
enum SeedOp {
    Edit { path: u8, byte: u8, mtime: u16 },
    Delete { path: u8 },
}

fn seed_path(p: u8) -> RelPath {
    rp(&format!("p{p}"))
}

/// Apply build ops to a replica, discarding the emitted actions (we only
/// want the resulting diverged index).
fn apply_seed(e: &mut Engine, ops: &[SeedOp]) {
    for op in ops {
        let ev = match *op {
            SeedOp::Edit { path, byte, mtime } => Event::Local(LocalChange {
                path: seed_path(path),
                kind: ChangeKind::Modified(sig_t(byte, u64::from(mtime))),
            }),
            SeedOp::Delete { path } => Event::Local(LocalChange {
                path: seed_path(path),
                kind: ChangeKind::Removed,
            }),
        };
        let _ = e.handle(ev);
    }
}

/// Collect every `Send`'s change from an action list.
fn sends(actions: Vec<Action>) -> Vec<RemoteChange> {
    actions
        .into_iter()
        .filter_map(|a| match a {
            Action::Send(rc) => Some(rc),
            _ => None,
        })
        .collect()
}

/// The reconcile Send stream `from` would ship to a peer holding
/// `peer_index` -- computed on a throwaway clone so `from`'s real index is
/// untouched. The peer learns `from`'s state only through this stream.
fn reconcile_stream(from: &Engine, peer_index: &Index) -> Vec<RemoteChange> {
    let mut probe = from.clone();
    sends(probe.handle(Event::PeerIndex(peer_index.clone())))
}

/// Build a diverged `(a, b)` pair. Without `pre_sync` the two replicas
/// never met, so same-path heads have disjoint clock support -> genesis
/// adoption mode. With `pre_sync` they first fully converge (a mutual
/// absorb) and then re-diverge via the post ops, whose local edits stamp
/// merged both-replica clocks -> overlapping support, i.e. steady-state
/// (non-adoption) shared history. Both shapes matter.
fn build_pair(
    a_ops: &[SeedOp],
    b_ops: &[SeedOp],
    pre_sync: bool,
    a_post: &[SeedOp],
    b_post: &[SeedOp],
) -> (Engine, Engine) {
    let mut a = engine(A);
    let mut b = engine(B);
    apply_seed(&mut a, a_ops);
    apply_seed(&mut b, b_ops);
    if pre_sync {
        let ia = a.index().clone();
        let ib = b.index().clone();
        let _ = a.handle(Event::PeerIndex(ib));
        let _ = b.handle(Event::PeerIndex(ia));
        apply_seed(&mut a, a_post);
        apply_seed(&mut b, b_post);
    }
    (a, b)
}

/// Two replicas and the reconciling changes on their way. `to_a`/`to_b` are the pending deliveries for each side; a
/// "batch" is any run of items popped in one call. `dealt_*` remembers what
/// has already been delivered so a duplicate (crash-retry) redelivery can
/// be replayed.
struct Wire {
    a: Engine,
    b: Engine,
    to_a: Vec<RemoteChange>,
    to_b: Vec<RemoteChange>,
    dealt_a: Vec<RemoteChange>,
    dealt_b: Vec<RemoteChange>,
}

impl Wire {
    fn new(a: Engine, b: Engine) -> Self {
        Self {
            a,
            b,
            to_a: Vec::new(),
            to_b: Vec::new(),
            dealt_a: Vec::new(),
            dealt_b: Vec::new(),
        }
    }

    /// A concurrently-generated local event on the receiving side; its
    /// resulting `Send`s are queued for the peer (Remote handling emits no
    /// `Send`, so only local events feed the queues).
    fn local(&mut self, on_a: bool, ev: Event) {
        let out = if on_a {
            self.a.handle(ev)
        } else {
            self.b.handle(ev)
        };
        for rc in sends(out) {
            if on_a {
                self.to_b.push(rc);
            } else {
                self.to_a.push(rc);
            }
        }
    }

    /// Deliver a batch of up to `n` pending changes to one side, in a
    /// selector-driven order (arbitrary partition + arbitrary order).
    fn deliver_batch(&mut self, to_a: bool, sel: usize, n: usize) {
        if to_a {
            Self::deal(&mut self.a, &mut self.to_a, &mut self.dealt_a, sel, n);
        } else {
            Self::deal(&mut self.b, &mut self.to_b, &mut self.dealt_b, sel, n);
        }
    }

    fn deal(
        eng: &mut Engine,
        queue: &mut Vec<RemoteChange>,
        dealt: &mut Vec<RemoteChange>,
        sel: usize,
        n: usize,
    ) {
        for _ in 0..n {
            if queue.is_empty() {
                break;
            }
            let idx = sel % queue.len();
            let rc = queue.remove(idx);
            let _ = eng.handle(Event::Remote(rc.clone()));
            dealt.push(rc);
        }
    }

    fn deliver_all_to(&mut self, to_a: bool) {
        let n = if to_a {
            self.to_a.len()
        } else {
            self.to_b.len()
        };
        self.deliver_batch(to_a, 0, n);
    }

    /// Re-deliver up to `n` already-delivered changes (duplicate delivery
    /// across a batch boundary -- the crash-retry case).
    fn redeliver(&mut self, to_a: bool, sel: usize, n: usize) {
        let (eng, dealt): (&mut Engine, &Vec<RemoteChange>) = if to_a {
            (&mut self.a, &self.dealt_a)
        } else {
            (&mut self.b, &self.dealt_b)
        };
        if dealt.is_empty() {
            return;
        }
        for k in 0..n {
            let idx = (sel + k) % dealt.len();
            let rc = dealt[idx].clone();
            let _ = eng.handle(Event::Remote(rc));
        }
    }

    /// Flush every remaining pending change both ways (Remote handling
    /// emits no `Send`, so this terminates after one pass).
    fn drain(&mut self) {
        while !self.to_a.is_empty() || !self.to_b.is_empty() {
            while let Some(rc) = self.to_a.pop() {
                let _ = self.a.handle(Event::Remote(rc));
            }
            while let Some(rc) = self.to_b.pop() {
                let _ = self.b.handle(Event::Remote(rc));
            }
        }
    }

    /// Assert both replicas converged: byte-identical indices AND an
    /// identical materialized winner at every path in the union.
    fn assert_converged(&self) {
        assert_eq!(
            self.a.index().canonical_bytes(),
            self.b.index().canonical_bytes()
        );
        let mut paths: BTreeSet<RelPath> = BTreeSet::new();
        for (p, _) in self.a.index().iter() {
            paths.insert(p.clone());
        }
        for (p, _) in self.b.index().iter() {
            paths.insert(p.clone());
        }
        for p in paths {
            let wa = self.a.index().get(&p).map(|e| e.winner().state);
            let wb = self.b.index().get(&p).map(|e| e.winner().state);
            assert_eq!(wa, wb, "winner mismatch at {p:?}");
        }
    }
}

#[derive(Debug, Clone)]
enum WireOp {
    Deliver {
        to_a: bool,
        sel: u8,
        n: u8,
    },
    Redeliver {
        to_a: bool,
        sel: u8,
        n: u8,
    },
    Edit {
        on_a: bool,
        path: u8,
        byte: u8,
        mtime: u16,
    },
    Delete {
        on_a: bool,
        path: u8,
    },
}

/// Set up a diverged pair, compute both reconcile streams, and stage them
/// in a fresh `Wire` ready for adversarial delivery.
fn wire_from(
    a_ops: &[SeedOp],
    b_ops: &[SeedOp],
    pre_sync: bool,
    a_post: &[SeedOp],
    b_post: &[SeedOp],
) -> Wire {
    let (a, b) = build_pair(a_ops, b_ops, pre_sync, a_post, b_post);
    let idx_a = a.index().clone();
    let idx_b = b.index().clone();
    let to_b = reconcile_stream(&a, &idx_b); // A's heads B is missing
    let to_a = reconcile_stream(&b, &idx_a); // B's heads A is missing
    let mut w = Wire::new(a, b);
    w.to_a = to_a;
    w.to_b = to_b;
    w
}

/// Genesis adoption survives adversarial batching. Two
/// pre-existing trees, never met; the same path is edited on both with
/// different content AND different mtime -> genesis adoption picks the
/// newer-mtime copy on BOTH replicas even though the older copy has the
/// higher hash. Deliver each reconcile stream as [one item, a duplicate of
/// it, then the rest] and assert both converge to the identical adopted
/// winner.
#[test]
fn reconcile_genesis_adoption_converges_under_batching() {
    let mut a = engine(A);
    let mut b = engine(B);
    // A: p0 older (mtime 100) with the HIGHER hash; p1 only on A.
    apply_seed(
        &mut a,
        &[
            SeedOp::Edit {
                path: 0,
                byte: 9,
                mtime: 100,
            },
            SeedOp::Edit {
                path: 1,
                byte: 4,
                mtime: 100,
            },
        ],
    );
    // B: p0 newer (mtime 500) with the LOWER hash; p2 only on B.
    apply_seed(
        &mut b,
        &[
            SeedOp::Edit {
                path: 0,
                byte: 3,
                mtime: 500,
            },
            SeedOp::Edit {
                path: 2,
                byte: 5,
                mtime: 100,
            },
        ],
    );
    let idx_a = a.index().clone();
    let idx_b = b.index().clone();
    let to_b = reconcile_stream(&a, &idx_b);
    let to_a = reconcile_stream(&b, &idx_a);
    let mut w = Wire::new(a, b);
    w.to_a = to_a;
    w.to_b = to_b;
    // Adversarial split, each direction: a single item, a duplicate, rest.
    w.deliver_batch(false, 0, 1);
    w.redeliver(false, 0, 1);
    w.deliver_all_to(false);
    w.deliver_batch(true, 0, 1);
    w.redeliver(true, 0, 1);
    w.deliver_all_to(true);
    w.drain();

    assert_eq!(w.a.index().canonical_bytes(), w.b.index().canonical_bytes());
    // The newer-mtime copy (B's byte 3) wins p0 on both replicas.
    assert_eq!(winner_state(&w.a, "p0"), EntryState::Present(sig_t(3, 500)));
    assert_eq!(winner_state(&w.b, "p0"), EntryState::Present(sig_t(3, 500)));
    // p0 really is a genesis (disjoint-support) adoption entry on both.
    assert!(w.a.index().get(&rp("p0")).unwrap().adoption_mode());
    assert!(w.b.index().get(&rp("p0")).unwrap().adoption_mode());
    // Disjoint files propagated both directions.
    assert_eq!(winner_state(&w.a, "p1"), EntryState::Present(sig_t(4, 100)));
    assert_eq!(winner_state(&w.b, "p2"), EntryState::Present(sig_t(5, 100)));
}

/// A small deterministic source of numbers.
struct Numbers(u64);

impl Numbers {
    fn below(&mut self, n: u64) -> u64 {
        self.0 = self
            .0
            .wrapping_mul(6_364_136_223_846_793_005)
            .wrapping_add(1_442_695_040_888_963_407);
        (self.0 >> 33) % n
    }
}

fn op(n: &mut Numbers) -> Op {
    match n.below(3) {
        0 => Op::Edit {
            on_a: n.below(2) == 0,
            path: n.below(3) as u8,
            byte: n.below(6) as u8,
        },
        1 => Op::Delete {
            on_a: n.below(2) == 0,
            path: n.below(3) as u8,
        },
        _ => Op::Deliver(n.below(8) as usize),
    }
}

/// Under any order of delivery both replicas reach the same index, no entry
/// has more heads than there are replicas, and exchanging the indices once
/// more changes nothing.
#[test]
fn convergence() {
    let mut n = Numbers(5);
    for _ in 0..200 {
        let ops: Vec<Op> = (0..n.below(60)).map(|_| op(&mut n)).collect();
        let mut sim = Sim::new();
        sim.run(&ops);
        assert_eq!(
            sim.a.index().canonical_bytes(),
            sim.b.index().canonical_bytes()
        );
        for engine in [&sim.a, &sim.b] {
            for (_, entry) in engine.index().iter() {
                assert!(entry.heads().len() <= 2);
            }
        }
        let a_idx = sim.a.index().clone();
        let b_idx = sim.b.index().clone();
        let a_actions = sim.a.handle(Event::PeerIndex(b_idx));
        let b_actions = sim.b.handle(Event::PeerIndex(a_idx));
        for act in a_actions.iter().chain(b_actions.iter()) {
            assert!(!matches!(act, Action::Send(_) | Action::Apply { .. }));
        }
    }
}

/// For any concurrent pair both replicas end with the same index, and the
/// winner is known already when it comes again.
#[test]
fn deterministic_conflict_winner() {
    for a_byte in 0..6 {
        for b_byte in 0..6 {
            for present in 0..4 {
                let (mut a, mut b, a_send, b_send) =
                    seed_concurrent(a_byte, b_byte, present % 2 == 0, present < 2);
                a.handle(Event::Remote(b_send));
                b.handle(Event::Remote(a_send));
                assert_eq!(a.index().canonical_bytes(), b.index().canonical_bytes());
                let w = a.index().get(&rp("f")).unwrap().winner().clone();
                let kind = match w.state {
                    EntryState::Present(s) => ChangeKind::Modified(s),
                    EntryState::Tombstone => ChangeKind::Removed,
                };
                assert!(b
                    .handle(Event::Remote(RemoteChange {
                        path: rp("f"),
                        kind,
                        version: w.version,
                    }))
                    .is_empty());
            }
        }
    }
}

fn seed_op(n: &mut Numbers) -> SeedOp {
    if n.below(4) == 0 {
        SeedOp::Delete {
            path: n.below(5) as u8,
        }
    } else {
        SeedOp::Edit {
            path: n.below(5) as u8,
            byte: 1 + n.below(6) as u8,
            mtime: n.below(8) as u16,
        }
    }
}

fn seed_ops(n: &mut Numbers, most: u64) -> Vec<SeedOp> {
    (0..n.below(most)).map(|_| seed_op(n)).collect()
}

#[test]
fn reconcile_batching_converges() {
    let mut n = Numbers(6);
    for _ in 0..150 {
        let a_ops = seed_ops(&mut n, 12);
        let b_ops = seed_ops(&mut n, 12);
        let pre_sync = n.below(2) == 0;
        let a_post = seed_ops(&mut n, 4);
        let b_post = seed_ops(&mut n, 4);
        let mut w = wire_from(&a_ops, &b_ops, pre_sync, &a_post, &b_post);
        for _ in 0..n.below(40) {
            let side = n.below(2) == 0;
            match n.below(8) {
                0..=3 => {
                    let (sel, k) = (n.below(256) as usize, 1 + n.below(5) as usize);
                    w.deliver_batch(side, sel, k);
                }
                4 => {
                    let (sel, k) = (n.below(256) as usize, 1 + n.below(3) as usize);
                    w.redeliver(side, sel, k);
                }
                5 | 6 => {
                    let byte = 1 + n.below(6) as u8;
                    let mtime = n.below(8);
                    w.local(
                        side,
                        Event::Local(LocalChange {
                            path: seed_path(n.below(5) as u8),
                            kind: ChangeKind::Modified(sig_t(byte, mtime)),
                        }),
                    );
                }
                _ => w.local(
                    side,
                    Event::Local(LocalChange {
                        path: seed_path(n.below(5) as u8),
                        kind: ChangeKind::Removed,
                    }),
                ),
            }
        }
        w.drain();
        w.assert_converged();
    }
}

#[test]
fn reconcile_redelivery_is_idempotent() {
    let mut n = Numbers(7);
    for _ in 0..100 {
        let a_ops = seed_ops(&mut n, 12);
        let b_ops = seed_ops(&mut n, 12);
        let mut w = wire_from(&a_ops, &b_ops, n.below(2) == 0, &[], &[]);
        w.deliver_all_to(true);
        w.deliver_all_to(false);
        let bytes = w.a.index().canonical_bytes();
        assert_eq!(bytes, w.b.index().canonical_bytes());
        let (sel, k) = (n.below(256) as usize, n.below(12) as usize);
        w.redeliver(true, sel, k);
        w.redeliver(false, sel, k);
        assert_eq!(bytes, w.a.index().canonical_bytes());
        assert_eq!(bytes, w.b.index().canonical_bytes());
    }
}

#[test]
fn two_equal_writes_swallow_two_events() {
    let mut e = engine(A);
    let mut clock = VectorClock::new();
    for byte in [9u8, 7, 9] {
        clock.tick(B);
        e.handle(Event::Remote(RemoteChange {
            path: rp("a.txt"),
            kind: ChangeKind::Modified(sig(byte)),
            version: clock.clone(),
        }));
    }
    let before = e.index().canonical_bytes();
    let nine = Expectation::Present(sig(9));
    assert!(e.handle(modified("a.txt", 9)).is_empty());
    assert!(e.is_expected_echo(&rp("a.txt"), &nine));
    assert!(e.handle(modified("a.txt", 9)).is_empty());
    assert!(!e.is_expected_echo(&rp("a.txt"), &nine));
    assert!(e.is_expected_echo(&rp("a.txt"), &Expectation::Present(sig(7))));
    assert_eq!(e.index().canonical_bytes(), before);
}

#[test]
fn reconciling_keeps_the_maximal_heads_of_both_sides() {
    let (mut ea, eb, _, _) = genesis_pair(sig(1), sig(2));
    ea.handle(modified("mine", 5));
    let mine = ea.index().get(&rp("mine")).unwrap().clone();
    ea.handle(Event::PeerIndex(eb.index().clone()));
    assert_eq!(ea.index().get(&rp("mine")), Some(&mine));
    let heads = ea.index().get(&rp("f")).unwrap().heads().len();
    assert_eq!(heads, 2);
    // A later version of one side replaces both heads.
    ea.handle(modified("f", 3));
    let mut eb = eb;
    eb.handle(Event::PeerIndex(ea.index().clone()));
    assert_eq!(eb.index().get(&rp("f")).unwrap().heads().len(), 1);
    assert_eq!(winner_state(&eb, "f"), EntryState::Present(sig(3)));
    assert_eq!(eb.index().canonical_bytes(), ea.index().canonical_bytes());
}

#[test]
fn a_pair_that_took_everything_in_agrees() {
    let mut ea = engine(A);
    let mut eb = engine(B);
    let mut to_b = Vec::new();
    let mut to_a = Vec::new();
    for (n, name) in ["f", "g", "f", "h"].iter().enumerate() {
        let byte = u8::try_from(n).unwrap() + 1;
        to_b.push(one_send(ea.handle(modified(name, byte))));
        to_a.push(one_send(eb.handle(modified(name, byte + 100))));
        if n == 1 {
            // One delivery overtakes the others.
            ea.handle(Event::Remote(to_a.pop().unwrap()));
        }
    }
    for c in to_a.into_iter().rev() {
        ea.handle(Event::Remote(c));
    }
    for c in to_b {
        eb.handle(Event::Remote(c.clone()));
        eb.handle(Event::Remote(c));
    }
    assert_eq!(ea.index().canonical_bytes(), eb.index().canonical_bytes());
    for name in ["f", "g", "h"] {
        assert_eq!(winner_state(&ea, name), winner_state(&eb, name));
        assert!(ea.index().get(&rp(name)).unwrap().heads().len() <= 2);
    }
}

#[test]
fn both_sides_of_a_conflict_are_recorded() {
    let (mut ea, mut eb, a_send, b_send) = genesis_pair(sig(1), sig(2));
    let recorded = |actions: &[Action], byte: u8| {
        actions.iter().any(|x| {
            matches!(x, Action::RecordVersion { path, state, .. }
                if *path == rp("f") && *state == EntryState::Present(sig(byte)))
        })
    };
    // Each side recorded its own version when it was made, and records the other one's
    // when it arrives, whoever wins.
    let at_a = ea.handle(Event::Remote(b_send));
    let at_b = eb.handle(Event::Remote(a_send));
    assert!(recorded(&at_a, 2));
    assert!(recorded(&at_b, 1));
    for actions in [&at_a, &at_b] {
        assert!(actions.iter().any(|x| matches!(
            x,
            Action::ConflictResolved { winner, loser, .. }
                if *winner == EntryState::Present(sig(2)) && *loser == EntryState::Present(sig(1))
        )));
    }
    // The same content again is no news to history.
    let mut newer = VectorClock::new();
    newer.tick(ReplicaId(3));
    let again = ea.handle(Event::Remote(RemoteChange {
        path: rp("f"),
        kind: ChangeKind::Modified(sig(1)),
        version: newer,
    }));
    assert!(!recorded(&again, 1));
}
