//! When captures are recorded.

use tomo::clock::{ReplicaId, VectorClock};
use tomo::index::{ContentHash, ContentSig, EntryState};
use tomo::path::RelPath;
use tomo::pressure::{
    CaptureDecision, CaptureInput, HistoryMode, PressureConfig, PressureController,
    QUEUE_HIGH_WATER,
};

// ---- helpers ----------------------------------------------------------

fn path(name: &str) -> RelPath {
    RelPath::new(name).expect("valid test path")
}

/// A clock ticked `n` times on replica 0 — strictly increasing in `n`, so
/// successive notes for a path have a well-defined "newest".
fn clock(n: u64) -> VectorClock {
    let mut c = VectorClock::new();
    for _ in 0..n {
        c.tick(ReplicaId(0));
    }
    c
}

fn present(byte: u8, size: u64) -> EntryState {
    EntryState::Present(ContentSig {
        hash: ContentHash([byte; 32]),
        size,
        exec_bit: false,
        mtime_ms: 0,
    })
}

/// A capture whose version and content are derived from a counter, so the
/// counter totally orders a path's notes.
fn cap(n: u64) -> CaptureInput {
    CaptureInput {
        state: present(u8::try_from(n % 251).unwrap_or(0), n),
        version: clock(n),
        origin_is_local: true,
        size_hint: 0,
    }
}

fn adaptive() -> PressureController {
    PressureController::new(HistoryMode::Adaptive, PressureConfig::default())
}

// ---- mode behaviors ---------------------------------------------------

#[test]
fn every_change_is_always_immediate_and_never_stages() {
    let mut pc = PressureController::new(HistoryMode::EveryChange, PressureConfig::default());
    for t in 0..100 {
        // A dense storm that would escalate an adaptive controller.
        assert_eq!(pc.note(path("f"), cap(t), t), CaptureDecision::Immediate);
    }
    assert_eq!(pc.staged_len(), 0);
    assert_eq!(pc.rung(), 0);
}

#[test]
fn off_swallows_everything() {
    let mut pc = PressureController::new(HistoryMode::Off, PressureConfig::default());
    for t in 0..50 {
        assert_eq!(pc.note(path("f"), cap(t), t), CaptureDecision::Dropped);
    }
    assert_eq!(pc.staged_len(), 0);
    assert!(pc.next_due_ms().is_none());
}

#[test]
fn interval_defers_at_fixed_deadline_without_escalation() {
    let mut pc =
        PressureController::new(HistoryMode::IntervalMs(500), PressureConfig::default());
    // First change of a burst sets the deadline at staged_at + 500.
    assert_eq!(
        pc.note(path("f"), cap(0), 100),
        CaptureDecision::Deferred { due_at_ms: 600 }
    );
    // A dense burst never escalates, and the slot keeps its original deadline.
    for t in 101..400 {
        assert_eq!(
            pc.note(path("f"), cap(t), t),
            CaptureDecision::Deferred { due_at_ms: 600 }
        );
    }
    assert_eq!(pc.rung(), 0);
    let due = pc.poll_due(600);
    assert_eq!(due.len(), 1);
    // Newest content wins the slot.
    assert_eq!(due[0].1.version, clock(399));
}

#[test]
fn interval_zero_behaves_like_every_change() {
    let mut pc = PressureController::new(HistoryMode::IntervalMs(0), PressureConfig::default());
    assert_eq!(pc.note(path("f"), cap(0), 0), CaptureDecision::Immediate);
    assert_eq!(pc.note(path("f"), cap(1), 1), CaptureDecision::Immediate);
    assert_eq!(pc.staged_len(), 0);
}

// ---- adaptive: calm ---------------------------------------------------

#[test]
fn adaptive_calm_is_always_immediate() {
    let mut pc = adaptive();
    // 300 ms apart → ~3 events/s, far below the 20/s threshold.
    for k in 0..20 {
        let t = k * 300;
        assert_eq!(pc.note(path("f"), cap(k), t), CaptureDecision::Immediate);
        assert_eq!(pc.rung(), 0);
    }
    assert_eq!(pc.staged_len(), 0);
}

// ---- adaptive: escalation ---------------------------------------------

#[test]
fn adaptive_storm_escalates_monotonically_to_max_and_stays() {
    let mut pc = adaptive();
    let max_rung = PressureConfig::default().ladder_ms.len() - 1;
    let mut prev = 0usize;
    // 100 notes, 10 ms apart: ~100 events/s, well above threshold.
    for k in 0..100 {
        let t = k * 10;
        pc.note(path("f"), cap(k), t);
        assert!(pc.rung() >= prev, "rung must never drop mid-storm");
        prev = pc.rung();
    }
    assert_eq!(pc.rung(), max_rung, "sustained storm pins the top rung");
}

#[test]
fn adaptive_escalates_on_staged_bytes() {
    let config = PressureConfig {
        max_staged_bytes: 10,
        ..PressureConfig::default()
    };
    let mut pc = PressureController::new(HistoryMode::Adaptive, config);
    // First change is immediate (rung 0, no bytes staged yet), but only
    // once we are staging do bytes accumulate — so prime with a slow pair
    // that crosses the byte threshold to force a climb without needing a
    // high arrival rate.
    let big = CaptureInput {
        size_hint: 1000,
        ..cap(0)
    };
    // rung 0, nothing staged → immediate, no bytes retained.
    assert_eq!(
        pc.note(path("a"), big.clone(), 0),
        CaptureDecision::Immediate
    );
    // Feed a queue-depth signal to bump off rung 0 so subsequent changes
    // stage and accumulate bytes.
    pc.signals(QUEUE_HIGH_WATER + 1, 1);
    assert_eq!(pc.rung(), 1);
    pc.note(path("b"), big.clone(), 2);
    // Now staged_bytes (1000) exceeds max_staged_bytes (10): next note climbs.
    let before = pc.rung();
    pc.note(path("c"), big, 3);
    assert!(pc.rung() > before);
}

#[test]
fn adaptive_escalates_on_queue_depth_via_signals() {
    let mut pc = adaptive();
    assert_eq!(pc.rung(), 0);
    pc.signals(QUEUE_HIGH_WATER + 1, 10);
    assert_eq!(pc.rung(), 1);
    pc.signals(QUEUE_HIGH_WATER + 1, 20);
    assert_eq!(pc.rung(), 2);
}

// ---- adaptive: decay --------------------------------------------------

#[test]
fn adaptive_decays_stepwise_to_zero_when_idle() {
    let mut pc = adaptive();
    // Drive to the top rung with a storm.
    for k in 0..100 {
        pc.note(path("f"), cap(k), k * 10);
    }
    let top = pc.rung();
    assert!(top >= 3);
    let last = 99 * 10;
    // Each idle decay_idle_ms (2000) drops exactly one rung.
    pc.signals(0, last + 2000);
    assert_eq!(pc.rung(), top - 1);
    pc.signals(0, last + 4000);
    assert_eq!(pc.rung(), top - 2);
    pc.signals(0, last + 6000);
    assert_eq!(pc.rung(), top - 3);
    // Saturates at 0.
    pc.signals(0, last + 100_000);
    assert_eq!(pc.rung(), 0);
}

#[test]
fn decay_can_drop_multiple_rungs_in_one_jump() {
    let mut pc = adaptive();
    for k in 0..100 {
        pc.note(path("f"), cap(k), k * 10);
    }
    assert_eq!(pc.rung(), 3);
    // A single call after 3× the idle window drops three rungs at once.
    pc.signals(0, 99 * 10 + 6000);
    assert_eq!(pc.rung(), 0);
}

// ---- staging mechanics ------------------------------------------------

#[test]
fn replacement_keeps_original_deadline_and_newest_content() {
    let mut pc = adaptive();
    // Force onto a non-zero rung via queue back-pressure.
    pc.signals(QUEUE_HIGH_WATER + 1, 0);
    let rung = pc.rung();
    let interval = PressureConfig::default().ladder_ms[rung];
    assert!(interval > 0);

    let d0 = pc.note(path("f"), cap(1), 100);
    let CaptureDecision::Deferred { due_at_ms: due0 } = d0 else {
        panic!("expected deferred");
    };
    assert_eq!(due0, 100 + interval);

    // A later edit in the same burst keeps due0 (does not push it out).
    let d1 = pc.note(path("f"), cap(2), 150);
    assert_eq!(d1, CaptureDecision::Deferred { due_at_ms: due0 });

    // Flushing at the original deadline yields the newest content.
    let flushed = pc.poll_due(due0);
    assert_eq!(flushed.len(), 1);
    assert_eq!(flushed[0].1.version, clock(2));
    assert_eq!(flushed[0].1.staged_at_ms, 150);
    assert_eq!(pc.staged_len(), 0);
}

#[test]
fn interval_zero_note_supersedes_a_pending_slot_without_discarding() {
    let mut pc = adaptive();
    // Stage something at a high rung.
    pc.signals(QUEUE_HIGH_WATER + 1, 0);
    pc.note(path("f"), cap(1), 100);
    assert_eq!(pc.staged_len(), 1);
    // Decay back to rung 0.
    pc.signals(0, 100 + 10_000);
    assert_eq!(pc.rung(), 0);
    // An interval-0 note against the pending slot does NOT return Immediate
    // (which would leave the older capture orphaned): it replaces the slot,
    // keeping the original — now already-overdue — deadline, so the pending
    // capture is superseded by the newest content and never discarded.
    let now = 100 + 10_000;
    let d = pc.note(path("f"), cap(2), now);
    assert!(
        matches!(d, CaptureDecision::Deferred { due_at_ms } if due_at_ms <= now),
        "interval-0 note over a pending slot must defer an immediately-due replacement, got {d:?}"
    );
    assert_eq!(pc.staged_len(), 1);
    let flushed = pc.poll_due(now);
    assert_eq!(flushed.len(), 1);
    assert_eq!(flushed[0].1.version, clock(2));
}

#[test]
fn poll_due_returns_ascending_and_removes() {
    let mut pc =
        PressureController::new(HistoryMode::IntervalMs(100), PressureConfig::default());
    pc.note(path("b"), cap(1), 0); // due 100
    pc.note(path("a"), cap(2), 5); // due 105
    pc.note(path("c"), cap(3), 0); // due 100
    assert_eq!(pc.staged_len(), 3);
    let due = pc.poll_due(200);
    let order: Vec<(&str, u64)> = due.iter().map(|(p, c)| (p.as_str(), c.due_at_ms)).collect();
    // (due_at, path) ascending: (100,"b"),(100,"c"),(105,"a").
    assert_eq!(order, [("b", 100), ("c", 100), ("a", 105)]);
    assert_eq!(pc.staged_len(), 0);
}

#[test]
fn next_due_ms_tracks_earliest_and_is_pollable() {
    let mut pc =
        PressureController::new(HistoryMode::IntervalMs(100), PressureConfig::default());
    assert_eq!(pc.next_due_ms(), None);
    pc.note(path("b"), cap(1), 50); // due 150
    pc.note(path("a"), cap(2), 0); // due 100
    assert_eq!(pc.next_due_ms(), Some(100));
    let d = pc.next_due_ms().unwrap();
    assert!(!pc.poll_due(d).is_empty());
}

/// Bounded staleness (example, rigorous): while a single path is edited
/// continuously, `poll_due` yields a checkpoint at least every
/// `ladder.max()` ms (plus poll granularity), even though the edits never
/// pause. Only *in-storm* flushes are bounded — the post-storm drain of the
/// final still-pending slot is a tail, not a staleness violation.
#[test]
fn bounded_staleness_continuous_storm() {
    let mut pc = adaptive();
    let max = *PressureConfig::default().ladder_ms.iter().max().unwrap(); // 5000
    let gap = 10u64;
    let mut flush_times: Vec<u64> = Vec::new();
    // 20 s of storm at 10 ms spacing; poll at every note time.
    for k in 0..2000u64 {
        let t = k * gap;
        pc.note(path("f"), cap(k), t);
        for _ in pc.poll_due(t) {
            flush_times.push(t);
        }
    }

    assert!(
        flush_times.len() >= 3,
        "a 20 s storm must yield several checkpoints, got {}",
        flush_times.len()
    );
    // A uniform grid keeps deadlines aligned, so consecutive checkpoints are
    // ladder.max apart to within one poll granularity.
    for w in flush_times.windows(2) {
        let delta = w[1] - w[0];
        assert!(
            delta <= max + gap,
            "checkpoint gap {delta} exceeded ladder.max + poll granularity"
        );
    }
    // The final still-pending slot drains cleanly past its deadline.
    let last = 1999 * gap;
    pc.poll_due(last + max);
    assert_eq!(pc.staged_len(), 0);
}

/// Bounded staleness (property): random small gaps, long enough to reach
/// and hold the top rung; consecutive in-storm checkpoints stay within
/// `ladder.max()` plus timing-grid slack on both the deadline and the poll.
#[test]
fn bounded_staleness_property() {
    // A hand-rolled deterministic pseudo-storm across several seeds keeps
    // this cheap while still varying the timing grid.
    for seed in 0u64..8 {
        let mut pc = adaptive();
        let max = *PressureConfig::default().ladder_ms.iter().max().unwrap();
        let mut now = 0u64;
        let mut max_gap = 0u64;
        let mut flush_times: Vec<u64> = Vec::new();
        for k in 0..3000u64 {
            // Gaps in 5..=15 ms, dense enough to hold the top rung.
            let g = 5 + (k.wrapping_mul(2_654_435_761).wrapping_add(seed)) % 11;
            max_gap = max_gap.max(g);
            now += g;
            pc.note(path("f"), cap(k), now);
            for _ in pc.poll_due(now) {
                flush_times.push(now);
            }
        }
        assert!(flush_times.len() >= 3, "seed {seed}: too few checkpoints");
        // A deadline lands up to one gap after the burst's first unflushed
        // change, and the flushing poll lands up to one gap after the
        // deadline, so the checkpoint interval is bounded by max + 2*gap.
        for w in flush_times.windows(2) {
            assert!(
                w[1] - w[0] <= max + 2 * max_gap,
                "seed {seed}: checkpoint gap {} exceeded bound",
                w[1] - w[0]
            );
        }
        pc.poll_due(now + max);
        assert_eq!(pc.staged_len(), 0, "seed {seed}: slot not drained");
    }
}

const PATHS: [&str; 4] = ["a", "b", "c", "d"];

/// Whatever notes and polls come, the last version that was noted of each path
/// has been recorded once all deadlines are past, and what a poll returns is
/// sorted by deadline and path.
#[test]
fn no_final_write_is_lost() {
    for seed in 0u64..20 {
        let mut x = seed;
        let mut below = |n: u64| {
            x = x
                .wrapping_mul(6_364_136_223_846_793_005)
                .wrapping_add(1_442_695_040_888_963_407);
            (x >> 33) % n
        };
        let mut pc = adaptive();
        let mut now = 0u64;
        let mut latest: [Option<VectorClock>; 4] = [None, None, None, None];
        let mut recorded: [Option<VectorClock>; 4] = [None, None, None, None];
        let mut counter = [0u64; 4];
        for _ in 0..150 {
            now += below(if seed % 2 == 0 { 2500 } else { 40 });
            if below(3) > 0 {
                let k = below(4) as usize;
                counter[k] += 1;
                latest[k] = Some(clock(counter[k]));
                match pc.note(path(PATHS[k]), cap(counter[k]), now) {
                    CaptureDecision::Immediate => recorded[k] = latest[k].clone(),
                    CaptureDecision::Deferred { .. } => {}
                    CaptureDecision::Dropped => unreachable!("adaptive never drops"),
                }
            } else {
                let due = pc.poll_due(now);
                for w in due.windows(2) {
                    assert!((w[0].1.due_at_ms, &w[0].0) <= (w[1].1.due_at_ms, &w[1].0));
                }
                for (p, c) in due {
                    let k = PATHS.iter().position(|&y| y == p.as_str()).unwrap();
                    assert_eq!(Some(&c.version), latest[k].as_ref());
                    recorded[k] = Some(c.version);
                }
            }
        }
        for (p, c) in pc.poll_due(now + 5001) {
            let k = PATHS.iter().position(|&y| y == p.as_str()).unwrap();
            recorded[k] = Some(c.version);
        }
        assert_eq!(pc.staged_len(), 0);
        assert_eq!(recorded, latest);
    }
}

/// Without a pause of the length that lets it decay, the rung never drops.
#[test]
fn escalation_is_monotonic() {
    let mut pc = adaptive();
    let mut now = 0u64;
    let mut prev = 0usize;
    for k in 0..300u64 {
        now += k.wrapping_mul(2_654_435_761) % 1999;
        pc.note(path("f"), cap(k), now);
        assert!(pc.rung() >= prev);
        prev = pc.rung();
    }
}

#[test]
fn a_clone_goes_on_by_itself() {
    let mut pc = PressureController::new(HistoryMode::IntervalMs(100), PressureConfig::default());
    pc.note(path("a"), cap(1), 0);
    pc.note(path("b"), cap(2), 50);
    let mut copy = pc.clone();
    assert_eq!(copy.staged_len(), 2);
    assert_eq!(copy.next_due_ms(), pc.next_due_ms());
    let due = copy.poll_due(1000);
    assert_eq!(due, pc.clone().poll_due(1000));
    assert_eq!(due.len(), 2);
    assert_eq!(copy.staged_len(), 0);
    assert_eq!(pc.staged_len(), 2);
}
