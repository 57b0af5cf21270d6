//! Adaptive history pressure controller.
//!
//! Under light load every change becomes its own version immediately; under a
//! storm the per-file flush intervals climb a ladder and bursts are coalesced
//! into checkpoints, and they fall back as pressure subsides. This governs
//! history capture only, never the live sync path.
//!
//! Every method that needs the time takes it as `now_ms`; callers advance it
//! monotonically. A staged capture is only ever replaced by a newer one for the
//! same path or handed out by [`PressureController::poll_due`]; only
//! [`HistoryMode::Off`] swallows captures.

use crate::clock::VectorClock;
use crate::index::EntryState;
use crate::order;
use crate::path::RelPath;
use crate::pathmap;
use crate::pathmap::PathMap;
use std::collections::VecDeque;
use vstd::prelude::*;

verus! {

/// Trailing window, in milliseconds, over which the arrival rate is estimated.
/// The number of notes in it is the rate per second.
pub const RATE_WINDOW_MS: u64 = 1000;

/// History-queue depth above which the controller climbs a rung whatever the
/// arrival rate.
pub const QUEUE_HIGH_WATER: u64 = 64;

/// Tuning for the adaptive controller.
#[derive(Debug, PartialEq, Eq)]
pub struct PressureConfig {
    /// Per-file flush intervals in milliseconds, ascending. An empty ladder
    /// stands for the single interval zero.
    pub ladder_ms: Vec<u64>,
    /// Arrival rate (whole events per second) above which the controller climbs
    /// one rung.
    pub escalate_events_per_sec: i64,
    /// Idle time in milliseconds after which the controller drops one rung;
    /// zero means never.
    pub decay_idle_ms: u64,
    /// Total staged bytes above which the controller climbs one rung.
    pub max_staged_bytes: u64,
}

impl Clone for PressureConfig {
    fn clone(&self) -> (c: Self)
        ensures
            c.ladder_ms@ == self.ladder_ms@,
            c.escalate_events_per_sec == self.escalate_events_per_sec,
            c.decay_idle_ms == self.decay_idle_ms,
            c.max_staged_bytes == self.max_staged_bytes,
    {
        let mut ladder_ms: Vec<u64> = Vec::new();
        let mut i: usize = 0;
        while i < self.ladder_ms.len()
            invariant
                i <= self.ladder_ms@.len(),
                ladder_ms@ == self.ladder_ms@.take(i as int),
            decreases self.ladder_ms@.len() - i,
        {
            ladder_ms.push(self.ladder_ms[i]);
            i = i + 1;
            assert(self.ladder_ms@.take(i as int) =~= self.ladder_ms@.take(i - 1).push(
                self.ladder_ms@[i - 1],
            ));
        }
        assert(self.ladder_ms@.take(i as int) =~= self.ladder_ms@);
        PressureConfig {
            ladder_ms,
            escalate_events_per_sec: self.escalate_events_per_sec,
            decay_idle_ms: self.decay_idle_ms,
            max_staged_bytes: self.max_staged_bytes,
        }
    }
}

impl Default for PressureConfig {
    fn default() -> (c: Self)
        ensures
            c.ladder_ms@ == seq![0u64, 250, 1000, 5000],
            c.escalate_events_per_sec == 20,
            c.decay_idle_ms == 2000,
            c.max_staged_bytes == 8388608,
    {
        let mut ladder_ms: Vec<u64> = Vec::new();
        ladder_ms.push(0);
        ladder_ms.push(250);
        ladder_ms.push(1000);
        ladder_ms.push(5000);
        assert(ladder_ms@ =~= seq![0u64, 250, 1000, 5000]);
        PressureConfig {
            ladder_ms,
            escalate_events_per_sec: 20,
            decay_idle_ms: 2000,
            max_staged_bytes: 8 * 1024 * 1024,
        }
    }
}

/// History-capture policy.
#[derive(Debug, Clone, Copy, PartialEq, Eq, Structural)]
pub enum HistoryMode {
    /// The adaptive ladder.
    Adaptive,
    /// Every change becomes its own version immediately; never staged.
    EveryChange,
    /// History disabled: every capture is swallowed.
    Off,
    /// A fixed flush interval in milliseconds, with no escalation or decay. An
    /// interval of zero behaves like [`HistoryMode::EveryChange`].
    IntervalMs(u64),
}

/// The version to (maybe) record and the hints that the controller needs.
#[derive(Debug, PartialEq, Eq)]
pub struct CaptureInput {
    /// The state (present with content, or tombstone) to record.
    pub state: EntryState,
    /// The vector clock of this version.
    pub version: VectorClock,
    /// Whether this change originated locally.
    pub origin_is_local: bool,
    /// Approximate byte size awaiting chunking.
    pub size_hint: u64,
}

impl Clone for CaptureInput {
    fn clone(&self) -> (c: Self)
        ensures
            c.state == self.state,
            c.version@ == self.version@,
            c.origin_is_local == self.origin_is_local,
            c.size_hint == self.size_hint,
    {
        CaptureInput {
            state: self.state,
            version: self.version.clone(),
            origin_is_local: self.origin_is_local,
            size_hint: self.size_hint,
        }
    }
}

/// A capture parked in the staging buffer until its flush deadline.
#[derive(Debug, Clone, PartialEq, Eq)]
pub struct StagedCapture {
    /// The state to record when this capture flushes.
    pub state: EntryState,
    /// The vector clock of the staged version.
    pub version: VectorClock,
    /// Whether the staged change originated locally.
    pub origin_is_local: bool,
    /// When the current content entered the slot.
    pub staged_at_ms: u64,
    /// When this capture is due to flush; only ever shortened.
    pub due_at_ms: u64,
    /// The size hint of the staged content.
    pub size_hint: u64,
}

/// A capture as a mathematical value.
pub ghost struct CaptureModel {
    pub state: EntryState,
    pub version: Seq<(u64, u64)>,
    pub origin_is_local: bool,
    pub size_hint: u64,
}

/// A staged capture as a mathematical value.
pub ghost struct StagedModel {
    /// What is to be recorded.
    pub capture: CaptureModel,
    /// When it entered the slot.
    pub staged_at: u64,
    /// When it is due.
    pub due_at: u64,
}

impl View for CaptureInput {
    type V = CaptureModel;

    open spec fn view(&self) -> CaptureModel {
        CaptureModel {
            state: self.state,
            version: self.version@,
            origin_is_local: self.origin_is_local,
            size_hint: self.size_hint,
        }
    }
}

impl View for StagedCapture {
    type V = StagedModel;

    open spec fn view(&self) -> StagedModel {
        StagedModel {
            capture: CaptureModel {
                state: self.state,
                version: self.version@,
                origin_is_local: self.origin_is_local,
                size_hint: self.size_hint,
            },
            staged_at: self.staged_at_ms,
            due_at: self.due_at_ms,
        }
    }
}

/// What [`PressureController::note`] decided for a capture.
#[derive(Debug, Clone, Copy, PartialEq, Eq, Structural)]
pub enum CaptureDecision {
    /// Record this version now; nothing was staged.
    Immediate,
    /// The version was staged, or replaced an older staged one.
    Deferred {
        /// The flush deadline of the staged slot.
        due_at_ms: u64,
    },
    /// History is off: the capture was swallowed.
    Dropped,
}

/// The controller's state as a mathematical value.
#[verifier::ext_equal]
pub ghost struct PressureModel {
    pub mode: HistoryMode,
    /// The flush intervals, ascending.
    pub ladder: Seq<u64>,
    pub threshold: int,
    pub decay_idle: u64,
    pub max_bytes: u64,
    /// The current rung of the ladder.
    pub rung: nat,
    /// The staged capture of every path that has one.
    pub staging: Map<Seq<char>, StagedModel>,
    pub staged_bytes: u64,
    /// The times of recent notes.
    pub window: Seq<u64>,
    /// The time from which decay is measured.
    pub anchor: u64,
}

/// `x - y`, but not below zero.
pub open spec fn minus(x: u64, y: u64) -> u64 {
    if x >= y {
        (x - y) as u64
    } else {
        0
    }
}

/// `x + y`, but not above the maximum.
pub open spec fn plus(x: u64, y: u64) -> u64 {
    if x + y > u64::MAX {
        u64::MAX
    } else {
        (x + y) as u64
    }
}

/// The state after idle time: one rung down per whole idle period since the
/// anchor, which moves forward by the periods consumed.
pub open spec fn decayed(m: PressureModel, now: u64) -> PressureModel {
    if m.decay_idle == 0 || now <= m.anchor {
        m
    } else {
        let steps = (now - m.anchor) / m.decay_idle as int;
        PressureModel {
            rung: if steps >= m.rung {
                0
            } else {
                (m.rung - steps) as nat
            },
            anchor: (m.anchor + steps * m.decay_idle) as u64,
            ..m
        }
    }
}

/// The times at the front that lie before `cutoff` are gone.
pub open spec fn pruned(w: Seq<u64>, cutoff: u64) -> Seq<u64>
    decreases w.len(),
{
    if w.len() > 0 && w[0] < cutoff {
        pruned(w.drop_first(), cutoff)
    } else {
        w
    }
}

/// The state after the pressure signals were looked at: one rung up where the
/// arrival rate, the staged bytes or the queue is above its mark.
pub open spec fn escalated(m: PressureModel, now: u64, queue_high: bool) -> PressureModel {
    if m.rung + 1 >= m.ladder.len() {
        m
    } else {
        let window = pruned(m.window, minus(now, RATE_WINDOW_MS));
        let up = window.len() > m.threshold || m.staged_bytes > m.max_bytes || queue_high;
        PressureModel {
            window,
            rung: if up {
                m.rung + 1
            } else {
                m.rung
            },
            ..m
        }
    }
}

/// When a capture of `path` that arrives now is due: no later than what is
/// already staged for it.
pub open spec fn due_time(m: PressureModel, path: Seq<char>, now: u64, interval: u64) -> u64 {
    let fresh = plus(now, interval);
    if m.staging.dom().contains(path) && m.staging[path].due_at < fresh {
        m.staging[path].due_at
    } else {
        fresh
    }
}

/// Staging at `interval`, or recording at once where nothing is pending and
/// the interval is zero.
pub open spec fn decided(
    m: PressureModel,
    path: Seq<char>,
    c: CaptureModel,
    now: u64,
    interval: u64,
) -> (PressureModel, CaptureDecision) {
    if interval == 0 && !m.staging.dom().contains(path) {
        (m, CaptureDecision::Immediate)
    } else {
        let due = due_time(m, path, now, interval);
        let freed = if m.staging.dom().contains(path) {
            m.staging[path].capture.size_hint
        } else {
            0
        };
        (
            PressureModel {
                staging: m.staging.insert(
                    path,
                    StagedModel { capture: c, staged_at: now, due_at: due },
                ),
                staged_bytes: plus(minus(m.staged_bytes, freed), c.size_hint),
                ..m
            },
            CaptureDecision::Deferred { due_at_ms: due },
        )
    }
}

/// The state in which an adaptive controller decides on a note.
pub open spec fn noticed(m: PressureModel, now: u64) -> PressureModel {
    let d = decayed(m, now);
    let e = escalated(PressureModel { window: d.window.push(now), ..d }, now, false);
    PressureModel { anchor: now, ..e }
}

/// What a note does.
pub open spec fn noted(m: PressureModel, path: Seq<char>, c: CaptureModel, now: u64) -> (
    PressureModel,
    CaptureDecision,
) {
    match m.mode {
        HistoryMode::Off => (m, CaptureDecision::Dropped),
        HistoryMode::EveryChange => (m, CaptureDecision::Immediate),
        HistoryMode::IntervalMs(interval) => decided(m, path, c, now, interval),
        HistoryMode::Adaptive => {
            let n = noticed(m, now);
            decided(n, path, c, now, n.ladder[n.rung as int])
        },
    }
}

/// What feeding the queue depth does.
pub open spec fn signalled(m: PressureModel, depth: u64, now: u64) -> PressureModel {
    if m.mode is Adaptive {
        escalated(decayed(m, now), now, depth > QUEUE_HIGH_WATER)
    } else {
        m
    }
}

/// The staged captures of a sequence of results.
pub open spec fn staged_models(s: Seq<(RelPath, StagedCapture)>) -> Seq<(Seq<char>, StagedModel)> {
    Seq::new(s.len(), |i: int| (s[i].0@, s[i].1@))
}

/// Earlier deadline first, then the smaller path.
pub open spec fn due_before(a: (Seq<char>, StagedModel), b: (Seq<char>, StagedModel)) -> bool {
    a.1.due_at < b.1.due_at || (a.1.due_at == b.1.due_at && order::text_lt(a.0, b.0))
}

/// In the order in which captures are handed out.
pub open spec fn due_sorted(s: Seq<(Seq<char>, StagedModel)>) -> bool {
    forall|i: int, j: int| 0 <= i < j < s.len() ==> due_before(#[trigger] s[i], #[trigger] s[j])
}

/// The result has an entry for `p`.
pub open spec fn hands_out(s: Seq<(Seq<char>, StagedModel)>, p: Seq<char>) -> bool {
    exists|i: int| 0 <= i < s.len() && #[trigger] s[i].0 == p
}

/// `s` is every capture of `staging` that is due by `now`, in order.
pub open spec fn is_due_list(
    s: Seq<(Seq<char>, StagedModel)>,
    staging: Map<Seq<char>, StagedModel>,
    now: u64,
) -> bool {
    &&& due_sorted(s)
    &&& forall|p: Seq<char>| #[trigger]
        hands_out(s, p) <==> (staging.dom().contains(p) && staging[p].due_at <= now)
    &&& forall|i: int|
        0 <= i < s.len() ==> staging.dom().contains((#[trigger] s[i]).0) && s[i].1
            == staging[s[i].0]
}

/// The sum of the size hints.
pub open spec fn total_size(s: Seq<(Seq<char>, StagedModel)>) -> int
    decreases s.len(),
{
    if s.len() == 0 {
        0
    } else {
        total_size(s.drop_last()) + s.last().1.capture.size_hint
    }
}

/// The captures that are not due yet.
pub open spec fn kept(staging: Map<Seq<char>, StagedModel>, now: u64) -> Map<
    Seq<char>,
    StagedModel,
> {
    Map::new(
        |p: Seq<char>| staging.dom().contains(p) && staging[p].due_at > now,
        |p: Seq<char>| staging[p],
    )
}

/// What handing out the list `s` of due captures leaves.
pub open spec fn polled(m: PressureModel, now: u64, s: Seq<(Seq<char>, StagedModel)>) -> PressureModel {
    let d = if m.mode is Adaptive {
        decayed(m, now)
    } else {
        m
    };
    PressureModel {
        staging: kept(d.staging, now),
        staged_bytes: if d.staged_bytes >= total_size(s) {
            (d.staged_bytes - total_size(s)) as u64
        } else {
            0
        },
        ..d
    }
}

/// The adaptive history pressure controller.
#[derive(Debug)]
pub struct PressureController {
    mode: HistoryMode,
    config: PressureConfig,
    rung: usize,
    staging: PathMap<StagedCapture>,
    staged_bytes: u64,
    window: VecDeque<u64>,
    decay_anchor_ms: u64,
}

/// The staging buffer with each capture replaced by its model.
spec fn staging_model(s: Map<Seq<char>, StagedCapture>) -> Map<Seq<char>, StagedModel> {
    Map::new(|p: Seq<char>| s.dom().contains(p), |p: Seq<char>| s[p]@)
}

impl View for PressureController {
    type V = PressureModel;

    closed spec fn view(&self) -> PressureModel {
        PressureModel {
            mode: self.mode,
            ladder: self.config.ladder_ms@,
            threshold: self.config.escalate_events_per_sec as int,
            decay_idle: self.config.decay_idle_ms,
            max_bytes: self.config.max_staged_bytes,
            rung: self.rung as nat,
            staging: staging_model(self.staging@),
            staged_bytes: self.staged_bytes,
            window: self.window@,
            anchor: self.decay_anchor_ms,
        }
    }
}

impl Clone for PressureController {
    fn clone(&self) -> (c: Self)
        ensures
            c@ == self@,
    {
        let ghost l = self.staging.listing();
        let n: usize = self.staging.len();
        let mut staging: PathMap<StagedCapture> = PathMap::new();
        let mut i: usize = 0;
        assert(staging_model(staging@) =~= staging_model(pathmap::to_map(l.take(0))));
        while i < n
            invariant
                i <= n,
                n == l.len(),
                pathmap::sorted(l),
                l == self.staging.listing(),
                staging_model(staging@) == staging_model(pathmap::to_map(l.take(i as int))),
            decreases n - i,
        {
            let path: RelPath = self.staging.key(i).clone();
            let from = self.staging.value(i);
            let copied = StagedCapture {
                state: from.state,
                version: from.version.clone(),
                origin_is_local: from.origin_is_local,
                staged_at_ms: from.staged_at_ms,
                due_at_ms: from.due_at_ms,
                size_hint: from.size_hint,
            };
            let ghost before = staging_model(staging@);
            let ghost slot = copied@;
            let _ = staging.insert(path, copied);
            i = i + 1;
            proof {
                let t = l.take(i as int);
                assert(pathmap::sorted(t));
                pathmap::drop_last_map(t);
                pathmap::listed(t, i - 1);
                assert(t.drop_last() =~= l.take(i - 1));
                assert(staging_model(staging@) =~= before.insert(l[i - 1].0, slot));
                assert(staging_model(staging@) =~= staging_model(pathmap::to_map(t)));
            }
        }
        assert(l.take(i as int) =~= l);
        let mut window: VecDeque<u64> = VecDeque::new();
        let mut k: usize = 0;
        while k < self.window.len()
            invariant
                k <= self.window@.len(),
                window@ == self.window@.take(k as int),
            decreases self.window@.len() - k,
        {
            window.push_back(self.window[k]);
            k = k + 1;
            assert(window@ =~= self.window@.take(k as int));
        }
        assert(window@ =~= self.window@);
        PressureController {
            mode: self.mode,
            config: self.config.clone(),
            rung: self.rung,
            staging,
            staged_bytes: self.staged_bytes,
            window,
            decay_anchor_ms: self.decay_anchor_ms,
        }
    }
}

impl PressureController {
    /// The rung is a valid index into the ladder.
    pub open spec fn wf(&self) -> bool {
        self@.rung < self@.ladder.len()
    }

    /// A controller in `mode` with `config`. An empty ladder is replaced by the
    /// single interval zero; everything else is used as given.
    pub fn new(mode: HistoryMode, config: PressureConfig) -> (c: Self)
        ensures
            c.wf(),
            c@ == (PressureModel {
                mode,
                ladder: if config.ladder_ms@.len() == 0 {
                    seq![0u64]
                } else {
                    config.ladder_ms@
                },
                threshold: config.escalate_events_per_sec as int,
                decay_idle: config.decay_idle_ms,
                max_bytes: config.max_staged_bytes,
                rung: 0,
                staging: Map::empty(),
                staged_bytes: 0,
                window: seq![],
                anchor: 0,
            }),
    {
        let mut config = config;
        if config.ladder_ms.len() == 0 {
            config.ladder_ms.push(0);
            assert(config.ladder_ms@ =~= seq![0u64]);
        }
        let c = PressureController {
            mode,
            config,
            rung: 0,
            staging: PathMap::new(),
            staged_bytes: 0,
            window: VecDeque::new(),
            decay_anchor_ms: 0,
        };
        assert(c@.staging =~= Map::<Seq<char>, StagedModel>::empty());
        assert(c@.window =~= Seq::<u64>::empty());
        c
    }

    /// Record that a version of `path` is to be captured: stage it, replace
    /// what is pending, or decide that it be recorded at once.
    pub fn note(&mut self, path: RelPath, capture: CaptureInput, now_ms: u64) -> (d:
        CaptureDecision)
        requires
            old(self).wf(),
        ensures
            final(self).wf(),
            final(self)@ == noted(old(self)@, path@, capture@, now_ms).0,
            d == noted(old(self)@, path@, capture@, now_ms).1,
    {
        match self.mode {
            HistoryMode::Off => CaptureDecision::Dropped,
            HistoryMode::EveryChange => CaptureDecision::Immediate,
            HistoryMode::IntervalMs(interval) => self.decide(path, capture, now_ms, interval),
            HistoryMode::Adaptive => {
                self.decay(now_ms);
                self.window.push_back(now_ms);
                self.escalate(now_ms, false);
                self.decay_anchor_ms = now_ms;
                let interval: u64 = self.config.ladder_ms[self.rung];
                self.decide(path, capture, now_ms, interval)
            },
        }
    }

    fn decide(&mut self, path: RelPath, capture: CaptureInput, now_ms: u64, interval: u64) -> (d:
        CaptureDecision)
        requires
            old(self).wf(),
        ensures
            final(self).wf(),
            final(self)@ == decided(old(self)@, path@, capture@, now_ms, interval).0,
            d == decided(old(self)@, path@, capture@, now_ms, interval).1,
    {
        let ghost m = self@;
        let ghost p = path@;
        let ghost c = capture@;
        let ladder_due: u64 = now_ms.saturating_add(interval);
        let (due_at_ms, prev_bytes): (u64, u64) = match self.staging.get(&path) {
            Some(existing) => (
                if existing.due_at_ms < ladder_due {
                    existing.due_at_ms
                } else {
                    ladder_due
                },
                existing.size_hint,
            ),
            None => {
                if interval == 0 {
                    return CaptureDecision::Immediate;
                }
                (ladder_due, 0)
            },
        };
        self.staged_bytes = self.staged_bytes.saturating_sub(prev_bytes).saturating_add(
            capture.size_hint,
        );
        let staged = StagedCapture {
            state: capture.state,
            version: capture.version,
            origin_is_local: capture.origin_is_local,
            staged_at_ms: now_ms,
            due_at_ms,
            size_hint: capture.size_hint,
        };
        let ghost sm = staged@;
        let ghost before = self.staging@;
        let _ = self.staging.insert(path, staged);
        proof {
            assert(staging_model(self.staging@) =~= staging_model(before).insert(p, sm));
            assert(self@ =~= decided(m, p, c, now_ms, interval).0);
        }
        CaptureDecision::Deferred { due_at_ms }
    }

    /// Feed the history-queue depth. It climbs at most one rung and is not
    /// remembered.
    pub fn signals(&mut self, history_queue_depth: u64, now_ms: u64)
        requires
            old(self).wf(),
        ensures
            final(self).wf(),
            final(self)@ == signalled(old(self)@, history_queue_depth, now_ms),
    {
        if matches!(self.mode, HistoryMode::Adaptive) {
            self.decay(now_ms);
            self.escalate(now_ms, history_queue_depth > QUEUE_HIGH_WATER);
        }
    }

    /// Remove and return every staged capture that is due by `now_ms`, earliest
    /// deadline first, then by path.
    pub fn poll_due(&mut self, now_ms: u64) -> (out: Vec<(RelPath, StagedCapture)>)
        requires
            old(self).wf(),
        ensures
            final(self).wf(),
            is_due_list(staged_models(out@), old(self)@.staging, now_ms),
            final(self)@ == polled(old(self)@, now_ms, staged_models(out@)),
    {
        if matches!(self.mode, HistoryMode::Adaptive) {
            self.decay(now_ms);
        }
        let ghost m = self@;
        let ghost all = self.staging@;
        let paths = self.due_paths(now_ms);
        let mut out: Vec<(RelPath, StagedCapture)> = Vec::new();
        let mut i: usize = 0;
        proof {
            assert(staged_models(out@) =~= Seq::<(Seq<char>, StagedModel)>::empty());
            assert(self@ == m);
        }
        while i < paths.len()
            invariant
                i <= paths@.len(),
                m.staging == staging_model(all),
                forall|k: int|
                    0 <= k < paths@.len() ==> all.dom().contains((#[trigger] paths@[k])@)
                        && all[paths@[k]@].due_at_ms <= now_ms,
                forall|a: int, b: int|
                    0 <= a < b < paths@.len() ==> order::text_lt(
                        (#[trigger] paths@[a])@,
                        (#[trigger] paths@[b])@,
                    ),
                self@.staging == staging_model(self.staging@),
                self@ == (PressureModel {
                    staging: self@.staging,
                    staged_bytes: self@.staged_bytes,
                    ..m
                }),
                forall|p: Seq<char>| #[trigger]
                    self.staging@.dom().contains(p) <==> (all.dom().contains(p) && forall|k: int|
                        0 <= k < i ==> (#[trigger] paths@[k])@ != p),
                forall|p: Seq<char>| #[trigger]
                    self.staging@.dom().contains(p) ==> self.staging@[p] == all[p],
                self.staged_bytes == if m.staged_bytes >= total_size(staged_models(out@)) {
                    m.staged_bytes - total_size(staged_models(out@))
                } else {
                    0
                },
                total_size(staged_models(out@)) >= 0,
                due_sorted(staged_models(out@)),
                forall|k: int|
                    0 <= k < out@.len() ==> m.staging.dom().contains(
                        (#[trigger] staged_models(out@)[k]).0,
                    ) && staged_models(out@)[k].1 == m.staging[staged_models(out@)[k].0],
                forall|p: Seq<char>| #[trigger]
                    hands_out(staged_models(out@), p) <==> exists|k: int|
                        0 <= k < i && (#[trigger] paths@[k])@ == p,
            decreases paths@.len() - i,
        {
            let path: RelPath = paths[i].clone();
            let ghost p = path@;
            proof {
                assert forall|k: int| 0 <= k < i implies (#[trigger] paths@[k])@ != p by {
                    order::text_order(p, p, p);
                }
                assert(self.staging@.dom().contains(p));
            }
            let ghost held = self.staging@;
            match self.staging.remove(&path) {
                Some(cap) => {
                    self.staged_bytes = self.staged_bytes.saturating_sub(cap.size_hint);
                    let ghost had = staged_models(out@);
                    let ghost item = (p, cap@);
                    proof {
                        assert(cap == held[p]);
                        assert forall|k: int| 0 <= k < had.len() implies order::text_lt(
                            (#[trigger] had[k]).0,
                            p,
                        ) by {
                            assert(hands_out(had, had[k].0));
                            let x = choose|x: int| 0 <= x < i && (#[trigger] paths@[x])@ == had[k].0;
                            assert(order::text_lt(paths@[x]@, paths@[i as int]@));
                        }
                    }
                    place_due(&mut out, path, cap);
                    proof {
                        assert(self.staging@ == held.remove(p));
                        assert(item.1 == m.staging[p]);
                    }
                },
                None => {},
            }
            i = i + 1;
            proof {
                assert forall|q: Seq<char>| #[trigger]
                    self.staging@.dom().contains(q) <==> (all.dom().contains(q) && forall|k: int|
                        0 <= k < i ==> (#[trigger] paths@[k])@ != q) by {
                    if q == p {
                        assert(paths@[i - 1]@ == q);
                    } else {
                        assert(self.staging@.dom().contains(q) == held.dom().contains(q));
                        if held.dom().contains(q) {
                            assert forall|k: int| 0 <= k < i implies (#[trigger] paths@[k])@
                                != q by {}
                        }
                    }
                }
                assert forall|q: Seq<char>| #[trigger]
                    hands_out(staged_models(out@), q) <==> exists|k: int|
                        0 <= k < i && (#[trigger] paths@[k])@ == q by {
                    if q == p {
                        assert(paths@[i - 1]@ == q);
                    }
                }
            }
        }
        proof {
            let s = staged_models(out@);
            assert(kept(m.staging, now_ms) =~= staging_model(self.staging@)) by {
                assert forall|p: Seq<char>| kept(m.staging, now_ms).dom().contains(p)
                    <==> self.staging@.dom().contains(p) by {
                    self.due_paths_complete(paths@, all, now_ms, p);
                }
            }
            assert(is_due_list(s, m.staging, now_ms)) by {
                assert forall|p: Seq<char>| #[trigger]
                    hands_out(s, p) <==> (m.staging.dom().contains(p) && m.staging[p].due_at
                        <= now_ms) by {
                    self.due_paths_complete(paths@, all, now_ms, p);
                }
            }
            assert(self@ =~= polled(old(self)@, now_ms, s));
        }
        out
    }

    /// `paths` are all the paths that are due.
    spec fn all_due(paths: Seq<RelPath>, all: Map<Seq<char>, StagedCapture>, now_ms: u64) -> bool {
        forall|p: Seq<char>|
            (all.dom().contains(p) && (#[trigger] all[p]).due_at_ms <= now_ms) ==> exists|k: int|
                0 <= k < paths.len() && (#[trigger] paths[k])@ == p
    }

    /// The paths whose capture is due by `now_ms`, ascending.
    fn due_paths(&self, now_ms: u64) -> (paths: Vec<RelPath>)
        ensures
            forall|k: int|
                0 <= k < paths@.len() ==> self.staging@.dom().contains((#[trigger] paths@[k])@)
                    && self.staging@[paths@[k]@].due_at_ms <= now_ms,
            forall|a: int, b: int|
                0 <= a < b < paths@.len() ==> order::text_lt(
                    (#[trigger] paths@[a])@,
                    (#[trigger] paths@[b])@,
                ),
            Self::all_due(paths@, self.staging@, now_ms),
    {
        let n: usize = self.staging.len();
        let ghost l = self.staging.listing();
        let mut paths: Vec<RelPath> = Vec::new();
        let mut i: usize = 0;
        while i < n
            invariant
                i <= n,
                n == l.len(),
                l == self.staging.listing(),
                pathmap::sorted(l),
                forall|k: int|
                    0 <= k < paths@.len() ==> self.staging@.dom().contains((#[trigger] paths@[k])@)
                        && self.staging@[paths@[k]@].due_at_ms <= now_ms,
                forall|a: int, b: int|
                    0 <= a < b < paths@.len() ==> order::text_lt(
                        (#[trigger] paths@[a])@,
                        (#[trigger] paths@[b])@,
                    ),
                forall|k: int, x: int|
                    0 <= k < paths@.len() && i <= x < l.len() ==> order::text_lt(
                        (#[trigger] paths@[k])@,
                        (#[trigger] l[x]).0,
                    ),
                forall|x: int|
                    0 <= x < i && (#[trigger] l[x]).1.due_at_ms <= now_ms ==> exists|k: int|
                        0 <= k < paths@.len() && (#[trigger] paths@[k])@ == l[x].0,
            decreases n - i,
        {
            let cap = self.staging.value(i);
            proof {
                pathmap::listed(l, i as int);
            }
            let ghost had = paths@;
            if cap.due_at_ms <= now_ms {
                paths.push(self.staging.key(i).clone());
                proof {
                    assert(paths@[had.len() as int]@ == l[i as int].0);
                    assert forall|k: int| 0 <= k < had.len() implies (#[trigger] paths@[k])
                        == had[k] by {}
                }
            }
            proof {
                assert forall|x: int|
                    0 <= x < i + 1 && (#[trigger] l[x]).1.due_at_ms <= now_ms implies exists|
                    k: int,
                |
                    0 <= k < paths@.len() && (#[trigger] paths@[k])@ == l[x].0 by {
                    if x < i {
                        let k = choose|k: int| 0 <= k < had.len() && (#[trigger] had[k])@ == l[x].0;
                        assert(paths@[k]@ == l[x].0);
                    } else {
                        assert(paths@[had.len() as int]@ == l[x].0);
                    }
                }
            }
            i = i + 1;
        }
        proof {
            assert forall|p: Seq<char>|
                (self.staging@.dom().contains(p) && (#[trigger] self.staging@[p]).due_at_ms
                    <= now_ms) implies exists|k: int|
                0 <= k < paths@.len() && (#[trigger] paths@[k])@ == p by {
                let x = choose|x: int| 0 <= x < l.len() && #[trigger] l[x].0 == p;
                pathmap::listed(l, x);
                assert(l[x].1.due_at_ms <= now_ms);
            }
        }
        paths
    }

    /// A path is due exactly where the list of due paths names it.
    proof fn due_paths_complete(
        &self,
        paths: Seq<RelPath>,
        all: Map<Seq<char>, StagedCapture>,
        now_ms: u64,
        p: Seq<char>,
    )
        requires
            Self::all_due(paths, all, now_ms),
            forall|k: int|
                0 <= k < paths.len() ==> all.dom().contains((#[trigger] paths[k])@)
                    && all[paths[k]@].due_at_ms <= now_ms,
        ensures
            (all.dom().contains(p) && all[p].due_at_ms <= now_ms) <==> exists|k: int|
                0 <= k < paths.len() && (#[trigger] paths[k])@ == p,
    {
    }

    /// The earliest deadline among staged captures; `None` when nothing is
    /// staged.
    pub fn next_due_ms(&self) -> (d: Option<u64>)
        ensures
            match d {
                Some(t) => (exists|p: Seq<char>| #[trigger]
                    self@.staging.dom().contains(p) && self@.staging[p].due_at == t) && (forall|
                    p: Seq<char>,
                | #[trigger]
                    self@.staging.dom().contains(p) ==> self@.staging[p].due_at >= t),
                None => self@.staging == Map::<Seq<char>, StagedModel>::empty(),
            },
    {
        let n: usize = self.staging.len();
        let ghost l = self.staging.listing();
        if n == 0 {
            assert(self@.staging =~= Map::<Seq<char>, StagedModel>::empty());
            return None;
        }
        let mut best: u64 = self.staging.value(0).due_at_ms;
        let mut i: usize = 1;
        let ghost mut at: int = 0;
        while i < n
            invariant
                1 <= i <= n,
                n == l.len(),
                l == self.staging.listing(),
                0 <= at < i,
                l[at].1.due_at_ms == best,
                forall|k: int| 0 <= k < i ==> (#[trigger] l[k]).1.due_at_ms >= best,
            decreases n - i,
        {
            let due: u64 = self.staging.value(i).due_at_ms;
            if due < best {
                best = due;
                proof {
                    at = i as int;
                }
            }
            i = i + 1;
        }
        proof {
            pathmap::listed(l, at);
            assert(self@.staging.dom().contains(l[at].0));
            assert(self@.staging[l[at].0].due_at == best);
            assert forall|p: Seq<char>| #[trigger]
                self@.staging.dom().contains(p) implies self@.staging[p].due_at >= best by {
                let x = choose|x: int| 0 <= x < l.len() && #[trigger] l[x].0 == p;
                pathmap::listed(l, x);
            }
        }
        Some(best)
    }

    /// The current ladder rung (zero means: flush immediately).
    pub fn rung(&self) -> (r: usize)
        ensures
            r == self@.rung,
    {
        self.rung
    }

    /// The number of captures currently staged.
    pub fn staged_len(&self) -> (n: usize)
        ensures
            n == self@.staging.dom().len(),
            self@.staging.dom().finite(),
    {
        let n: usize = self.staging.len();
        proof {
            pathmap::size_of_map(self.staging.listing());
            assert(self@.staging.dom() =~= self.staging@.dom());
        }
        n
    }

    /// Drop rungs for the idle time since the anchor.
    fn decay(&mut self, now_ms: u64)
        requires
            old(self).wf(),
        ensures
            final(self).wf(),
            final(self)@ == decayed(old(self)@, now_ms),
            final(self).staging == old(self).staging,
    {
        if self.config.decay_idle_ms == 0 || now_ms <= self.decay_anchor_ms {
            return;
        }
        let idle: u64 = now_ms - self.decay_anchor_ms;
        let period: u64 = self.config.decay_idle_ms;
        let steps: u64 = idle / period;
        let rung: u64 = self.rung as u64;
        assert(steps * period <= idle) by (nonlinear_arith)
            requires
                steps == idle / period,
                period > 0,
        ;
        if steps >= rung {
            self.rung = 0;
        } else {
            self.rung = self.rung - steps as usize;
        }
        self.decay_anchor_ms = self.decay_anchor_ms + steps * period;
        assert(self@ =~= decayed(old(self)@, now_ms));
    }

    /// Climb one rung where a pressure signal is above its mark.
    fn escalate(&mut self, now_ms: u64, queue_high: bool)
        requires
            old(self).wf(),
        ensures
            final(self).wf(),
            final(self)@ == escalated(old(self)@, now_ms, queue_high),
            final(self).staging == old(self).staging,
    {
        if self.rung >= self.config.ladder_ms.len() - 1 {
            return;
        }
        let rate: usize = self.observed_rate(now_ms);
        if rate as i128 > self.config.escalate_events_per_sec as i128 || self.staged_bytes
            > self.config.max_staged_bytes || queue_high {
            self.rung = self.rung + 1;
        }
        assert(self@ =~= escalated(old(self)@, now_ms, queue_high));
    }

    /// Prune the window and count the notes in it.
    fn observed_rate(&mut self, now_ms: u64) -> (n: usize)
        ensures
            n == final(self)@.window.len(),
            final(self)@ == (PressureModel {
                window: pruned(old(self)@.window, minus(now_ms, RATE_WINDOW_MS)),
                ..old(self)@
            }),
            final(self).staging == old(self).staging,
    {
        let cutoff: u64 = now_ms.saturating_sub(RATE_WINDOW_MS);
        while self.window.len() > 0 && self.window[0] < cutoff
            invariant
                pruned(old(self)@.window, cutoff) == pruned(self.window@, cutoff),
                self@ == (PressureModel { window: self.window@, ..old(self)@ }),
                self.staging == old(self).staging,
            decreases self.window@.len(),
        {
            let ghost w = self.window@;
            let _ = self.window.pop_front();
            assert(self.window@ =~= w.drop_first());
        }
        self.window.len()
    }
}

/// Put a capture where its deadline belongs, behind equal ones.
fn place_due(out: &mut Vec<(RelPath, StagedCapture)>, path: RelPath, cap: StagedCapture)
    requires
        due_sorted(staged_models(old(out)@)),
        total_size(staged_models(old(out)@)) >= 0,
        forall|k: int|
            0 <= k < old(out)@.len() ==> order::text_lt(
                (#[trigger] staged_models(old(out)@)[k]).0,
                path@,
            ),
    ensures
        due_sorted(staged_models(final(out)@)),
        total_size(staged_models(final(out)@)) == total_size(staged_models(old(out)@))
            + cap.size_hint,
        exists|k: int|
            0 <= k <= old(out)@.len() && #[trigger] staged_models(old(out)@).insert(
                k,
                (path@, cap@),
            ) == staged_models(final(out)@),
        forall|p: Seq<char>| #[trigger]
            hands_out(staged_models(final(out)@), p) <==> (hands_out(staged_models(old(out)@), p)
                || p == path@),
        forall|k: int|
            0 <= k < final(out)@.len() ==> (#[trigger] staged_models(final(out)@)[k]) == (
                path@,
                cap@,
            ) || staged_models(old(out)@).contains(staged_models(final(out)@)[k]),
{
    let ghost s = staged_models(out@);
    let ghost item = (path@, cap@);
    let mut k: usize = out.len();
    while k > 0 && out[k - 1].1.due_at_ms > cap.due_at_ms
        invariant
            k <= out@.len(),
            s == staged_models(out@),
            forall|j: int| k <= j < s.len() ==> (#[trigger] s[j]).1.due_at > cap.due_at_ms,
        decreases k,
    {
        k = k - 1;
    }
    proof {
        assert forall|j: int| 0 <= j < k implies due_before(#[trigger] s[j], item) by {
            assert(s[k - 1].1.due_at <= cap.due_at_ms);
            if j < k - 1 {
                assert(due_before(s[j], s[k - 1]));
            }
            assert(order::text_lt(s[j].0, item.0));
        }
    }
    out.insert(k, (path, cap));
    proof {
        let t = staged_models(out@);
        assert(t =~= s.insert(k as int, item));
        assert(due_sorted(t)) by {
            assert forall|i: int, j: int| 0 <= i < j < t.len() implies due_before(
                #[trigger] t[i],
                #[trigger] t[j],
            ) by {
                let oi = if i > k { i - 1 } else { i };
                let oj = if j > k { j - 1 } else { j };
                if i != k {
                    assert(t[i] == s[oi]);
                }
                if j != k {
                    assert(t[j] == s[oj]);
                }
                if i == k {
                    assert(s[oj].1.due_at > cap.due_at_ms);
                }
            }
        }
        insert_size(s, k as int, item);
        assert forall|p: Seq<char>| #[trigger] hands_out(t, p) <==> (hands_out(s, p) || p
            == item.0) by {
            if hands_out(s, p) {
                let i = choose|i: int| 0 <= i < s.len() && #[trigger] s[i].0 == p;
                let o = if i < k { i } else { i + 1 };
                assert(t[o].0 == p);
            }
            if p == item.0 {
                assert(t[k as int].0 == p);
            }
            if hands_out(t, p) {
                let i = choose|i: int| 0 <= i < t.len() && #[trigger] t[i].0 == p;
                if i != k {
                    let o = if i < k { i } else { i - 1 };
                    assert(s[o].0 == p);
                }
            }
        }
        assert forall|i: int| 0 <= i < t.len() implies (#[trigger] t[i]) == item || s.contains(
            t[i],
        ) by {
            if i != k {
                let o = if i < k { i } else { i - 1 };
                assert(s[o] == t[i]);
            }
        }
    }
}

proof fn insert_size(s: Seq<(Seq<char>, StagedModel)>, k: int, x: (Seq<char>, StagedModel))
    requires
        0 <= k <= s.len(),
    ensures
        total_size(s.insert(k, x)) == total_size(s) + x.1.capture.size_hint,
    decreases s.len(),
{
    let t = s.insert(k, x);
    if k == s.len() {
        assert(t.drop_last() =~= s);
    } else {
        insert_size(s.drop_last(), k, x);
        assert(t.drop_last() =~= s.drop_last().insert(k, x));
        assert(t.last() == s.last());
    }
}

} // verus!
