//! Laws of the pressure controller's pace: how far it steps down when it is idle, when
//! it climbs, and what becomes of a capture at each rung.

use crate::captures;
use crate::captures::Op;
use crate::pressure;
use crate::pressure::{CaptureDecision, CaptureModel, HistoryMode, PressureModel, StagedModel};
use vstd::prelude::*;

verus! {

// ---- idle time -------------------------------------------------------------
/// `k` whole idle periods lie between the anchor and `now`.
pub open spec fn whole_periods(m: PressureModel, now: u64, k: nat) -> bool {
    if m.decay_idle == 0 || now <= m.anchor {
        k == 0
    } else {
        k * m.decay_idle <= now - m.anchor < (k + 1) * m.decay_idle
    }
}

/// `k` rungs down, but not below the lowest.
pub open spec fn lowered(rung: nat, k: nat) -> nat {
    if k >= rung {
        0
    } else {
        (rung - k) as nat
    }
}

proof fn periods_divide(x: int, d: int, k: int)
    requires
        d > 0,
        k * d <= x < (k + 1) * d,
    ensures
        x / d == k,
{
    let r = x - k * d;
    assert((k + 1) * d == k * d + d) by (nonlinear_arith);
    vstd::arithmetic::div_mod::lemma_fundamental_div_mod_converse(x, d, k, r);
}

/// Law: at every time, each whole idle period that lies between the anchor and then
/// takes the controller down one rung, and no further than to the lowest. The anchor
/// moves by those periods, and nothing else changes.
pub proof fn idle_time_steps_down(m: PressureModel, now: u64, k: nat)
    requires
        whole_periods(m, now, k),
    ensures
        pressure::decayed(m, now).rung == lowered(m.rung, k),
        pressure::decayed(m, now).anchor == m.anchor + k * m.decay_idle,
        pressure::decayed(m, now) == (PressureModel {
            rung: pressure::decayed(m, now).rung,
            anchor: pressure::decayed(m, now).anchor,
            ..m
        }),
{
    if !(m.decay_idle == 0 || now <= m.anchor) {
        periods_divide(now - m.anchor, m.decay_idle as int, k as int);
    }
}

/// There is always a number of whole idle periods.
pub proof fn periods_exist(m: PressureModel, now: u64) -> (k: nat)
    ensures
        whole_periods(m, now, k),
{
    if m.decay_idle == 0 || now <= m.anchor {
        0
    } else {
        let x = now - m.anchor;
        let d = m.decay_idle as int;
        vstd::arithmetic::div_mod::lemma_fundamental_div_mod(x, d);
        vstd::arithmetic::div_mod::lemma_mod_bound(x, d);
        vstd::arithmetic::div_mod::lemma_div_pos_is_pos(x, d);
        let q = x / d;
        assert(q * d == d * q) by (nonlinear_arith);
        assert((q + 1) * d == d * q + d) by (nonlinear_arith);
        q as nat
    }
}

/// Law: it does not matter how often idle time is looked at: stepping down at one time
/// and again at a later one comes to stepping down at the later one.
pub proof fn idle_time_adds_up(m: PressureModel, a: u64, b: u64)
    requires
        a <= b,
    ensures
        pressure::decayed(pressure::decayed(m, a), b) == pressure::decayed(m, b),
{
    let j = periods_exist(m, a);
    idle_time_steps_down(m, a, j);
    let t = pressure::decayed(m, a);
    let k = periods_exist(t, b);
    idle_time_steps_down(t, b, k);
    let d = m.decay_idle as int;
    if m.decay_idle > 0 && b > m.anchor {
        assert((j + k) * d == j * d + k * d) by (nonlinear_arith);
        assert((j + k + 1) * d == j * d + (k + 1) * d) by (nonlinear_arith);
        if b <= t.anchor {
            assert((k + 1) * d == d) by (nonlinear_arith)
                requires
                    k == 0,
            ;
            assert(k * d == 0) by (nonlinear_arith)
                requires
                    k == 0,
            ;
        }
        if a <= m.anchor {
            assert(j * d == 0) by (nonlinear_arith)
                requires
                    j == 0,
            ;
        }
        assert(whole_periods(m, b, j + k));
        idle_time_steps_down(m, b, j + k);
    } else {
        assert(j * m.decay_idle == 0) by (nonlinear_arith)
            requires
                j == 0 || m.decay_idle == 0,
        ;
        assert(k * m.decay_idle == 0) by (nonlinear_arith)
            requires
                k == 0 || m.decay_idle == 0,
        ;
        idle_time_steps_down(m, b, 0);
    }
}

// ---- climbing --------------------------------------------------------------
/// How many of the times lie in the second before `now`.
pub open spec fn recent(w: Seq<u64>, now: u64) -> nat
    decreases w.len(),
{
    if w.len() == 0 {
        0
    } else {
        recent(w.drop_last(), now) + (if w.last() + 1000 >= now {
            1nat
        } else {
            0
        })
    }
}

/// The times do not go back, and none lies after `now`.
pub open spec fn times_until(w: Seq<u64>, now: u64) -> bool {
    &&& forall|i: int, j: int| 0 <= i <= j < w.len() ==> #[trigger] w[i] <= #[trigger] w[j]
    &&& forall|i: int| 0 <= i < w.len() ==> #[trigger] w[i] <= now
}

proof fn recent_from_front(w: Seq<u64>, now: u64)
    requires
        w.len() > 0,
    ensures
        recent(w, now) == recent(w.drop_first(), now) + (if w[0] + 1000 >= now {
            1nat
        } else {
            0
        }),
    decreases w.len(),
{
    let rest = w.drop_first();
    if w.len() == 1 {
        assert(w.drop_last() =~= Seq::<u64>::empty());
        assert(rest =~= Seq::<u64>::empty());
    } else {
        recent_from_front(w.drop_last(), now);
        assert(w.drop_last().drop_first() =~= rest.drop_last());
        assert(rest.last() == w.last());
    }
}

proof fn all_recent(w: Seq<u64>, now: u64)
    requires
        forall|i: int| 0 <= i < w.len() ==> #[trigger] w[i] + 1000 >= now,
    ensures
        recent(w, now) == w.len(),
    decreases w.len(),
{
    if w.len() > 0 {
        let front = w.drop_last();
        assert forall|i: int| 0 <= i < front.len() implies #[trigger] front[i] + 1000 >= now by {
            assert(front[i] == w[i]);
        }
        all_recent(front, now);
        assert(w[w.len() - 1] == w.last());
    }
}

/// What is left of the times after the old ones are gone.
proof fn pruning_keeps_recent(w: Seq<u64>, now: u64)
    requires
        times_until(w, now),
    ensures
        pressure::pruned(w, pressure::minus(now, pressure::RATE_WINDOW_MS)).len() == recent(w, now),
        recent(pressure::pruned(w, pressure::minus(now, pressure::RATE_WINDOW_MS)), now) == recent(
            w,
            now,
        ),
    decreases w.len(),
{
    let cutoff = pressure::minus(now, pressure::RATE_WINDOW_MS);
    if w.len() > 0 && w[0] < cutoff {
        let rest = w.drop_first();
        assert(times_until(rest, now)) by {
            assert forall|i: int, j: int| 0 <= i <= j < rest.len() implies #[trigger] rest[i]
                <= #[trigger] rest[j] by {
                assert(w[i + 1] <= w[j + 1]);
            }
        }
        pruning_keeps_recent(rest, now);
        recent_from_front(w, now);
    } else {
        assert forall|i: int| 0 <= i < w.len() implies #[trigger] w[i] + 1000 >= now by {
            assert(w[0] <= w[i]);
        }
        all_recent(w, now);
    }
}

/// The rung that is reached from `base`: the next one where the load is high and there
/// is a next one.
pub open spec fn climbed(base: nat, high: bool, rungs: nat) -> nat {
    if high && base + 1 < rungs {
        base + 1
    } else {
        base
    }
}

/// Law: what a note does to the rung. The idle time since the anchor takes it down;
/// then it climbs by one rung where more notes than the threshold fell into the last
/// second, this one among them, or more bytes than the limit are staged; else it stays.
/// The idle time counts from the note on.
pub proof fn a_note_moves_the_rung(
    m: PressureModel,
    path: Seq<char>,
    c: CaptureModel,
    now: u64,
    k: nat,
)
    requires
        m.mode is Adaptive,
        m.rung < m.ladder.len(),
        times_until(m.window, now),
        whole_periods(m, now, k),
    ensures
        ({
            let t = pressure::noted(m, path, c, now).0;
            let high = recent(m.window, now) + 1 > m.threshold || m.staged_bytes > m.max_bytes;
            &&& t.rung == climbed(lowered(m.rung, k), high, m.ladder.len())
            &&& t.anchor == now
            &&& t.ladder == m.ladder && t.mode == m.mode && t.threshold == m.threshold
                && t.decay_idle == m.decay_idle && t.max_bytes == m.max_bytes
        }),
{
    idle_time_steps_down(m, now, k);
    let w = m.window.push(now);
    assert(times_until(w, now)) by {
        assert forall|i: int, j: int| 0 <= i <= j < w.len() implies #[trigger] w[i]
            <= #[trigger] w[j] by {
            if j < m.window.len() {
                assert(m.window[i] <= m.window[j]);
            }
        }
    }
    pruning_keeps_recent(w, now);
    assert(w.drop_last() =~= m.window);
}

/// Law: a note that is taken in restarts the idle time, whatever came before.
pub proof fn a_note_restarts_the_idle_time(
    m: PressureModel,
    path: Seq<char>,
    c: CaptureModel,
    now: u64,
)
    requires
        m.mode is Adaptive,
    ensures
        pressure::noted(m, path, c, now).0.anchor == now,
        forall|later: u64|
            now <= later && later - now < m.decay_idle ==> #[trigger] pressure::decayed(
                pressure::noted(m, path, c, now).0,
                later,
            ).rung == pressure::noted(m, path, c, now).0.rung,
{
    let t = pressure::noted(m, path, c, now).0;
    assert forall|later: u64| now <= later && later - now < m.decay_idle implies
        #[trigger] pressure::decayed(t, later).rung == t.rung by {
        if later > now {
            assert(0 * t.decay_idle == 0 && (0 + 1) * t.decay_idle == t.decay_idle)
                by (nonlinear_arith);
            assert(t.decay_idle == m.decay_idle);
            idle_time_steps_down(t, later, 0);
        }
    }
}

/// Law: what feeding the depth of the queue does to the rung: as a note, but the depth
/// takes the place of the note as a sign of load, where it is above 64.
pub proof fn signals_move_the_rung(m: PressureModel, depth: u64, now: u64, k: nat)
    requires
        m.mode is Adaptive,
        m.rung < m.ladder.len(),
        times_until(m.window, now),
        whole_periods(m, now, k),
    ensures
        ({
            let t = pressure::signalled(m, depth, now);
            let high = recent(m.window, now) > m.threshold || m.staged_bytes > m.max_bytes
                || depth > 64;
            &&& t.rung == climbed(lowered(m.rung, k), high, m.ladder.len())
            &&& t.anchor == m.anchor + k * m.decay_idle
            &&& t.staging == m.staging && t.staged_bytes == m.staged_bytes
        }),
{
    idle_time_steps_down(m, now, k);
    pruning_keeps_recent(m.window, now);
}

/// Law: polling takes the rung down by the idle time, and climbs nowhere.
pub proof fn polling_moves_the_rung(
    m: PressureModel,
    now: u64,
    s: Seq<(Seq<char>, StagedModel)>,
    k: nat,
)
    requires
        m.mode is Adaptive,
        whole_periods(m, now, k),
    ensures
        pressure::polled(m, now, s).rung == lowered(m.rung, k),
        pressure::polled(m, now, s).window == m.window,
{
    idle_time_steps_down(m, now, k);
}

/// Law: outside the adaptive mode there is no ladder to climb: neither notes nor signals
/// nor polls move the rung.
pub proof fn other_modes_stay_on_their_rung(m: PressureModel, op: Op)
    requires
        !(m.mode is Adaptive),
    ensures
        captures::after(m, op).rung == m.rung,
{
}

/// How many notes of the uses lie in the second before `now`.
pub open spec fn notes_since(ops: Seq<Op>, now: u64) -> nat
    decreases ops.len(),
{
    if ops.len() == 0 {
        0
    } else {
        notes_since(ops.drop_last(), now) + (match ops.last() {
            Op::Note { now: t, .. } => if t + 1000 >= now {
                1nat
            } else {
                0
            },
            _ => 0,
        })
    }
}

proof fn pruning_forgets_no_later_time(w: Seq<u64>, then: u64, now: u64)
    requires
        times_until(w, then),
        then <= now,
    ensures
        recent(pressure::pruned(w, pressure::minus(then, pressure::RATE_WINDOW_MS)), now) == recent(
            w,
            now,
        ),
        times_until(pressure::pruned(w, pressure::minus(then, pressure::RATE_WINDOW_MS)), then),
    decreases w.len(),
{
    let cutoff = pressure::minus(then, pressure::RATE_WINDOW_MS);
    if w.len() > 0 && w[0] < cutoff {
        let rest = w.drop_first();
        assert(times_until(rest, then)) by {
            assert forall|i: int, j: int| 0 <= i <= j < rest.len() implies #[trigger] rest[i]
                <= #[trigger] rest[j] by {
                assert(w[i + 1] <= w[j + 1]);
            }
        }
        pruning_forgets_no_later_time(rest, then, now);
        recent_from_front(w, now);
    }
}

/// Law: the controller remembers the notes that count. However it was used, the times
/// that it holds in the second before now are those of the notes that fell into it.
pub proof fn recent_notes_are_remembered(m: PressureModel, ops: Seq<Op>, now: u64)
    requires
        m.mode is Adaptive,
        m.rung < m.ladder.len(),
        m.window == Seq::<u64>::empty(),
        captures::in_time(ops),
        forall|i: int| 0 <= i < ops.len() ==> captures::time_of(#[trigger] ops[i]) <= now,
    ensures
        recent(captures::run(m, ops).window, now) == notes_since(ops, now),
        times_until(captures::run(m, ops).window, now),
    decreases ops.len(),
{
    if ops.len() > 0 {
        let front = ops.drop_last();
        let then = captures::time_of(ops.last());
        assert(ops[ops.len() - 1] == ops.last());
        assert(captures::in_time(front)) by {
            assert forall|i: int, j: int| 0 <= i <= j < front.len() implies captures::time_of(
                #[trigger] front[i],
            ) <= captures::time_of(#[trigger] front[j]) by {
                assert(front[i] == ops[i] && front[j] == ops[j]);
            }
        }
        assert forall|i: int| 0 <= i < front.len() implies captures::time_of(#[trigger] front[i])
            <= now by {
            assert(front[i] == ops[i]);
        }
        assert forall|i: int| 0 <= i < front.len() implies captures::time_of(#[trigger] front[i])
            <= then by {
            assert(front[i] == ops[i]);
            assert(captures::time_of(ops[i]) <= captures::time_of(ops[ops.len() - 1]));
        }
        recent_notes_are_remembered(m, front, then);
        recent_notes_are_remembered(m, front, now);
        captures::run_settings(m, front);
        let before = captures::run(m, front);
        match ops.last() {
            Op::Note { .. } => {
                let w = before.window.push(then);
                assert(w.drop_last() =~= before.window);
                assert(times_until(w, then)) by {
                    assert forall|i: int, j: int| 0 <= i <= j < w.len() implies #[trigger] w[i]
                        <= #[trigger] w[j] by {
                        if j < before.window.len() {
                            assert(before.window[i] <= before.window[j]);
                        }
                    }
                }
                pruning_forgets_no_later_time(w, then, now);
            },
            Op::Signals { .. } => {
                pruning_forgets_no_later_time(before.window, then, now);
            },
            Op::Poll { .. } => {},
        }
    }
}

/// Law: in a run of notes, signals and polls, a note climbs by how many notes there were
/// in the second before it, whatever became of them.
pub proof fn a_storm_climbs_and_calm_does_not(
    m: PressureModel,
    ops: Seq<Op>,
    path: Seq<char>,
    c: CaptureModel,
    now: u64,
    k: nat,
)
    requires
        m.mode is Adaptive,
        m.rung < m.ladder.len(),
        m.window == Seq::<u64>::empty(),
        captures::in_time(ops.push(Op::Note { path, capture: c, now })),
        whole_periods(captures::run(m, ops), now, k),
    ensures
        ({
            let before = captures::run(m, ops);
            let t = pressure::noted(before, path, c, now).0;
            let high = notes_since(ops, now) + 1 > before.threshold || before.staged_bytes
                > before.max_bytes;
            t.rung == climbed(lowered(before.rung, k), high, m.ladder.len())
        }),
{
    let all = ops.push(Op::Note { path, capture: c, now });
    assert(captures::in_time(ops)) by {
        assert forall|i: int, j: int| 0 <= i <= j < ops.len() implies captures::time_of(
            #[trigger] ops[i],
        ) <= captures::time_of(#[trigger] ops[j]) by {
            assert(all[i] == ops[i] && all[j] == ops[j]);
        }
    }
    assert forall|i: int| 0 <= i < ops.len() implies captures::time_of(#[trigger] ops[i])
        <= now by {
        assert(all[i] == ops[i]);
        assert(captures::time_of(all[i]) <= captures::time_of(all[ops.len() as int]));
    }
    captures::run_settings(m, ops);
    recent_notes_are_remembered(m, ops, now);
    a_note_moves_the_rung(captures::run(m, ops), path, c, now, k);
}

// ---- what becomes of a capture ---------------------------------------------
/// The interval that a note is captured at: that of the rung which it reaches, or the
/// fixed one.
pub open spec fn interval_of(m: PressureModel, t: PressureModel) -> u64 {
    match m.mode {
        HistoryMode::IntervalMs(fixed) => fixed,
        _ => t.ladder[t.rung as int],
    }
}

/// Law: what becomes of a note. Where the interval is zero and nothing is pending for
/// its path, it is recorded at once and nothing is staged. Else it is what is staged for
/// its path, due one interval from now, or when what was pending was due if that comes
/// first. What is staged for other paths stays.
pub proof fn a_note_is_recorded_or_staged(
    m: PressureModel,
    path: Seq<char>,
    c: CaptureModel,
    now: u64,
)
    requires
        m.rung < m.ladder.len(),
        m.mode is Adaptive || m.mode is IntervalMs,
    ensures
        ({
            let (t, d) = pressure::noted(m, path, c, now);
            let pending = m.staging.dom().contains(path);
            let wait = interval_of(m, t);
            &&& d is Immediate <==> (wait == 0 && !pending)
            &&& d is Immediate ==> t.staging == m.staging && t.staged_bytes == m.staged_bytes
            &&& !(d is Immediate) ==> {
                let slot = t.staging[path];
                &&& t.staging.dom() == m.staging.dom().insert(path)
                &&& slot.capture == c
                &&& slot.staged_at == now
                &&& d == (CaptureDecision::Deferred { due_at_ms: slot.due_at })
                &&& slot.due_at <= now + wait
                &&& pending ==> slot.due_at <= m.staging[path].due_at
                &&& slot.due_at == now + wait || slot.due_at == u64::MAX || (pending
                    && slot.due_at == m.staging[path].due_at)
                &&& forall|q: Seq<char>|
                    q != path && #[trigger] m.staging.dom().contains(q) ==> t.staging[q]
                        == m.staging[q]
            }
        }),
{
    let (t, d) = pressure::noted(m, path, c, now);
    if !(d is Immediate) {
        assert(t.staging.dom() =~= m.staging.dom().insert(path));
    }
}

/// Law: every change is recorded at once in the mode that says so, and none where
/// history is off; neither stages anything.
pub proof fn plain_modes_stage_nothing(
    m: PressureModel,
    path: Seq<char>,
    c: CaptureModel,
    now: u64,
)
    ensures
        m.mode is EveryChange ==> pressure::noted(m, path, c, now) == (
            m,
            CaptureDecision::Immediate,
        ),
        m.mode is Off ==> pressure::noted(m, path, c, now) == (m, CaptureDecision::Dropped),
{
}

/// Law: calm comes back. After as many idle periods as the rung is high, a note that is
/// alone in its second, of a path with nothing pending, is recorded at once, where the
/// lowest rung means that and not too many bytes are staged.
pub proof fn after_a_storm_a_save_is_immediate(
    m: PressureModel,
    path: Seq<char>,
    c: CaptureModel,
    now: u64,
)
    requires
        m.mode is Adaptive,
        m.rung < m.ladder.len(),
        m.ladder[0] == 0,
        m.decay_idle > 0,
        now >= m.anchor + m.rung * m.decay_idle,
        times_until(m.window, now),
        recent(m.window, now) + 1 <= m.threshold,
        m.staged_bytes <= m.max_bytes,
        !m.staging.dom().contains(path),
    ensures
        pressure::noted(m, path, c, now).1 is Immediate,
        pressure::noted(m, path, c, now).0.rung == 0,
{
    let k = periods_exist(m, now);
    assert(m.rung * m.decay_idle >= 0) by (nonlinear_arith);
    if now > m.anchor {
        assert(k >= m.rung) by (nonlinear_arith)
            requires
                m.rung * m.decay_idle <= now - m.anchor,
                now - m.anchor < (k + 1) * m.decay_idle,
                m.decay_idle > 0,
        ;
    } else {
        assert(m.rung == 0) by (nonlinear_arith)
            requires
                m.rung * m.decay_idle <= 0,
                m.decay_idle > 0,
        ;
    }
    a_note_moves_the_rung(m, path, c, now, k);
    a_note_is_recorded_or_staged(m, path, c, now);
}

/// Law: a poll hands out what is due and keeps the rest: each staged capture is either
/// in the list, as it was staged, or stays as it was; none is both, and the list names no
/// path twice.
pub proof fn a_poll_hands_out_or_keeps(
    m: PressureModel,
    now: u64,
    s: Seq<(Seq<char>, StagedModel)>,
    p: Seq<char>,
)
    requires
        pressure::is_due_list(s, m.staging, now),
        m.staging.dom().contains(p),
    ensures
        ({
            let t = pressure::polled(m, now, s);
            if m.staging[p].due_at <= now {
                &&& !t.staging.dom().contains(p)
                &&& s.contains((p, m.staging[p]))
                &&& forall|i: int, j: int|
                    0 <= i < s.len() && 0 <= j < s.len() && (#[trigger] s[i]).0 == p && (
                    #[trigger] s[j]).0 == p ==> i == j
            } else {
                &&& t.staging.dom().contains(p) && t.staging[p] == m.staging[p]
                &&& forall|i: int| 0 <= i < s.len() ==> (#[trigger] s[i]).0 != p
            }
        }),
{
    if m.staging[p].due_at <= now {
        assert(pressure::hands_out(s, p));
        let i = choose|i: int| 0 <= i < s.len() && #[trigger] s[i].0 == p;
        assert(s[i] == (p, m.staging[p]));
        assert forall|i: int, j: int|
            0 <= i < s.len() && 0 <= j < s.len() && (#[trigger] s[i]).0 == p && (
            #[trigger] s[j]).0 == p implies i == j by {
            crate::order::text_order(p, p, p);
            if i < j {
                assert(pressure::due_before(s[i], s[j]));
            } else if j < i {
                assert(pressure::due_before(s[j], s[i]));
            }
        }
    } else {
        assert forall|i: int| 0 <= i < s.len() implies (#[trigger] s[i]).0 != p by {
            if s[i].0 == p {
                assert(pressure::hands_out(s, p));
            }
        }
    }
}

// ---- the list of what is due -----------------------------------------------
proof fn due_order(
    a: (Seq<char>, StagedModel),
    b: (Seq<char>, StagedModel),
    c: (Seq<char>, StagedModel),
)
    ensures
        pressure::due_before(a, b) && pressure::due_before(b, c) ==> pressure::due_before(a, c),
        a.0 != b.0 ==> pressure::due_before(a, b) || pressure::due_before(b, a),
{
    crate::order::text_order(a.0, b.0, c.0);
}

spec fn place_due(
    s: Seq<(Seq<char>, StagedModel)>,
    x: (Seq<char>, StagedModel),
) -> Seq<(Seq<char>, StagedModel)>
    decreases s.len(),
{
    if s.len() == 0 || pressure::due_before(s.last(), x) {
        s.push(x)
    } else {
        place_due(s.drop_last(), x).push(s.last())
    }
}

proof fn place_due_keeps_order(s: Seq<(Seq<char>, StagedModel)>, x: (Seq<char>, StagedModel))
    requires
        pressure::due_sorted(s),
        forall|i: int| 0 <= i < s.len() ==> (#[trigger] s[i]).0 != x.0,
    ensures
        pressure::due_sorted(place_due(s, x)),
        place_due(s, x).len() == s.len() + 1,
        forall|i: int|
            0 <= i < place_due(s, x).len() ==> (#[trigger] place_due(s, x)[i]) == x || s.contains(
                place_due(s, x)[i],
            ),
        place_due(s, x).contains(x),
        forall|i: int| 0 <= i < s.len() ==> place_due(s, x).contains(#[trigger] s[i]),
    decreases s.len(),
{
    let t = place_due(s, x);
    if s.len() == 0 || pressure::due_before(s.last(), x) {
        assert(t[s.len() as int] == x);
        assert forall|i: int| 0 <= i < s.len() implies t.contains(#[trigger] s[i]) by {
            assert(t[i] == s[i]);
        }
        assert forall|i: int, j: int| 0 <= i < j < t.len() implies pressure::due_before(
            #[trigger] t[i],
            #[trigger] t[j],
        ) by {
            if j == s.len() && i < s.len() - 1 {
                assert(pressure::due_before(s[i], s[s.len() - 1]));
                due_order(s[i], s.last(), x);
            }
        }
    } else {
        let front = s.drop_last();
        let last = s.last();
        assert(s[s.len() - 1] == last);
        assert forall|i: int| 0 <= i < front.len() implies (#[trigger] front[i]).0 != x.0 by {
            assert(front[i] == s[i]);
        }
        assert(pressure::due_sorted(front)) by {
            assert forall|i: int, j: int| 0 <= i < j < front.len() implies pressure::due_before(
                #[trigger] front[i],
                #[trigger] front[j],
            ) by {
                assert(front[i] == s[i] && front[j] == s[j]);
            }
        }
        place_due_keeps_order(front, x);
        let u = place_due(front, x);
        due_order(x, last, last);
        assert forall|i: int| 0 <= i < u.len() implies pressure::due_before(
            #[trigger] u[i],
            last,
        ) by {
            if u[i] != x {
                let k = choose|k: int| 0 <= k < front.len() && front[k] == u[i];
                assert(s[k] == front[k]);
                assert(pressure::due_before(s[k], s[s.len() - 1]));
            }
        }
        assert forall|i: int| 0 <= i < t.len() implies (#[trigger] t[i]) == x || s.contains(
            t[i],
        ) by {
            if i < u.len() {
                assert(t[i] == u[i]);
                if u[i] != x {
                    let k = choose|k: int| 0 <= k < front.len() && front[k] == u[i];
                    assert(s[k] == u[i]);
                }
            } else {
                assert(t[i] == last);
            }
        }
        let k = choose|k: int| 0 <= k < u.len() && u[k] == x;
        assert(t[k] == x);
        assert forall|i: int| 0 <= i < s.len() implies t.contains(#[trigger] s[i]) by {
            if i < front.len() {
                assert(u.contains(front[i]));
                let k = choose|k: int| 0 <= k < u.len() && u[k] == front[i];
                assert(t[k] == s[i]);
            } else {
                assert(t[u.len() as int] == s[i]);
            }
        }
    }
}

/// Law: what is due longest is handed out first, and what is due at the same time in the
/// order of the paths.
pub proof fn what_is_due_longest_comes_first(
    staging: Map<Seq<char>, StagedModel>,
    now: u64,
    s: Seq<(Seq<char>, StagedModel)>,
    i: int,
    j: int,
)
    requires
        pressure::is_due_list(s, staging, now),
        0 <= i < j < s.len(),
    ensures
        staging[s[i].0].due_at <= staging[s[j].0].due_at,
        staging[s[i].0].due_at == staging[s[j].0].due_at ==> crate::order::text_lt(
            s[i].0,
            s[j].0,
        ),
{
    assert(pressure::due_before(s[i], s[j]));
}

/// What is due can always be listed in order.
pub proof fn due_listing(staging: Map<Seq<char>, StagedModel>, now: u64) -> (s: Seq<
    (Seq<char>, StagedModel),
>)
    requires
        staging.dom().finite(),
    ensures
        pressure::is_due_list(s, staging, now),
    decreases staging.dom().len(),
{
    if staging.dom().len() == 0 {
        let s = Seq::<(Seq<char>, StagedModel)>::empty();
        assert(staging.dom() =~= Set::<Seq<char>>::empty());
        assert forall|p: Seq<char>| #[trigger] pressure::hands_out(s, p) implies false by {}
        s
    } else {
        let p = staging.dom().choose();
        let rest = staging.remove(p);
        assert(rest.dom() =~= staging.dom().remove(p));
        let front = due_listing(rest, now);
        assert(forall|i: int| 0 <= i < front.len() ==> (#[trigger] front[i]).0 != p);
        if staging[p].due_at > now {
            assert forall|q: Seq<char>| #[trigger]
                pressure::hands_out(front, q) <==> (staging.dom().contains(q) && staging[q].due_at
                    <= now) by {
                if q != p {
                    assert(rest.dom().contains(q) == staging.dom().contains(q));
                }
            }
            front
        } else {
            let x = (p, staging[p]);
            place_due_keeps_order(front, x);
            let s = place_due(front, x);
            assert forall|i: int| 0 <= i < s.len() implies staging.dom().contains(
                (#[trigger] s[i]).0,
            ) && s[i].1 == staging[s[i].0] by {
                if s[i] != x {
                    let k = choose|k: int| 0 <= k < front.len() && front[k] == s[i];
                    assert(rest.dom().contains(front[k].0));
                }
            }
            assert forall|q: Seq<char>| #[trigger]
                pressure::hands_out(s, q) <==> (staging.dom().contains(q) && staging[q].due_at
                    <= now) by {
                if staging.dom().contains(q) && staging[q].due_at <= now {
                    if q == p {
                        let k = choose|k: int| 0 <= k < s.len() && s[k] == x;
                        assert(s[k].0 == q);
                    } else {
                        assert(rest.dom().contains(q));
                        assert(pressure::hands_out(front, q));
                        let k = choose|k: int| 0 <= k < front.len() && #[trigger] front[k].0 == q;
                        assert(s.contains(front[k]));
                        let j = choose|j: int| 0 <= j < s.len() && s[j] == front[k];
                        assert(s[j].0 == q);
                    }
                }
                if pressure::hands_out(s, q) {
                    let k = choose|k: int| 0 <= k < s.len() && #[trigger] s[k].0 == q;
                    if s[k] != x {
                        let j = choose|j: int| 0 <= j < front.len() && front[j] == s[k];
                        assert(front[j].0 == q);
                        assert(pressure::hands_out(front, q));
                    }
                }
            }
            s
        }
    }
}

// ---- staged bytes ----------------------------------------------------------
/// The size hints of everything that is staged, added up.
pub open spec fn staged_total(staging: Map<Seq<char>, StagedModel>) -> int
    decreases staging.dom().len(),
    when staging.dom().finite()
{
    if staging.dom().len() == 0 {
        0
    } else {
        let p = staging.dom().choose();
        staging[p].capture.size_hint + staged_total(staging.remove(p))
    }
}

/// The sum does not depend on which capture is taken first.
proof fn total_without(staging: Map<Seq<char>, StagedModel>, p: Seq<char>)
    requires
        staging.dom().finite(),
        staging.dom().contains(p),
    ensures
        staged_total(staging) == staging[p].capture.size_hint + staged_total(staging.remove(p)),
    decreases staging.dom().len(),
{
    let q = staging.dom().choose();
    if q != p {
        let a = staging.remove(q);
        let b = staging.remove(p);
        assert(a.dom() =~= staging.dom().remove(q));
        assert(b.dom() =~= staging.dom().remove(p));
        total_without(a, p);
        total_without(b, q);
        assert(a.remove(p) =~= b.remove(q));
    }
}

proof fn total_is_at_least(staging: Map<Seq<char>, StagedModel>)
    requires
        staging.dom().finite(),
    ensures
        staged_total(staging) >= 0,
    decreases staging.dom().len(),
{
    if staging.dom().len() > 0 {
        let p = staging.dom().choose();
        assert(staging.remove(p).dom() =~= staging.dom().remove(p));
        total_is_at_least(staging.remove(p));
    }
}

proof fn total_after_insert(
    staging: Map<Seq<char>, StagedModel>,
    p: Seq<char>,
    slot: StagedModel,
)
    requires
        staging.dom().finite(),
    ensures
        staged_total(staging.insert(p, slot)) == staged_total(staging) + slot.capture.size_hint - (
        if staging.dom().contains(p) {
            staging[p].capture.size_hint as int
        } else {
            0
        }),
{
    let t = staging.insert(p, slot);
    total_without(t, p);
    if staging.dom().contains(p) {
        total_without(staging, p);
        assert(t.remove(p) =~= staging.remove(p));
    } else {
        assert(t.remove(p) =~= staging);
    }
}

/// Taking out the listed captures takes out their size hints.
proof fn total_after_taking(
    staging: Map<Seq<char>, StagedModel>,
    s: Seq<(Seq<char>, StagedModel)>,
    left: Map<Seq<char>, StagedModel>,
)
    requires
        staging.dom().finite(),
        forall|i: int|
            0 <= i < s.len() ==> staging.dom().contains((#[trigger] s[i]).0) && s[i].1
                == staging[s[i].0],
        forall|i: int, j: int|
            0 <= i < s.len() && 0 <= j < s.len() && i != j ==> (#[trigger] s[i]).0 != (
            #[trigger] s[j]).0,
        forall|p: Seq<char>| #[trigger]
            left.dom().contains(p) <==> (staging.dom().contains(p) && !pressure::hands_out(s, p)),
        forall|p: Seq<char>| #[trigger] left.dom().contains(p) ==> left[p] == staging[p],
    ensures
        left.dom().finite(),
        staged_total(left) == staged_total(staging) - pressure::total_size(s),
        pressure::total_size(s) >= 0,
    decreases s.len(),
{
    if s.len() == 0 {
        assert forall|p: Seq<char>| #[trigger] left.dom().contains(p) == staging.dom().contains(
            p,
        ) by {
            assert(!pressure::hands_out(s, p));
        }
        assert(left =~= staging);
    } else {
        let front = s.drop_last();
        let (p, slot) = s.last();
        assert(s[s.len() - 1] == (p, slot));
        let mid = left.insert(p, slot);
        assert forall|q: Seq<char>| #[trigger]
            mid.dom().contains(q) <==> (staging.dom().contains(q) && !pressure::hands_out(
                front,
                q,
            )) by {
            if pressure::hands_out(front, q) {
                let i = choose|i: int| 0 <= i < front.len() && #[trigger] front[i].0 == q;
                assert(s[i] == front[i]);
                assert(pressure::hands_out(s, q));
                assert(s[i].0 != s[s.len() - 1].0);
            }
            if pressure::hands_out(s, q) && q != p {
                let i = choose|i: int| 0 <= i < s.len() && #[trigger] s[i].0 == q;
                assert(front[i] == s[i]);
            }
            if q == p {
                assert(pressure::hands_out(s, p));
            }
        }
        assert forall|i: int| 0 <= i < front.len() implies staging.dom().contains(
            (#[trigger] front[i]).0,
        ) && front[i].1 == staging[front[i].0] by {
            assert(front[i] == s[i]);
        }
        assert forall|i: int, j: int|
            0 <= i < front.len() && 0 <= j < front.len() && i != j implies (#[trigger] front[i]).0
            != (#[trigger] front[j]).0 by {
            assert(front[i] == s[i] && front[j] == s[j]);
        }
        total_after_taking(staging, front, mid);
        assert(pressure::hands_out(s, p));
        assert(!left.dom().contains(p));
        assert(mid.remove(p) =~= left);
        assert(left.dom() =~= mid.dom().remove(p));
        total_without(mid, p);
    }
}

/// The size hints of the notes, added up.
pub open spec fn noted_total(ops: Seq<Op>) -> int
    decreases ops.len(),
{
    if ops.len() == 0 {
        0
    } else {
        noted_total(ops.drop_last()) + (match ops.last() {
            Op::Note { capture, .. } => capture.size_hint as int,
            _ => 0,
        })
    }
}

/// Law: the count of staged bytes is right. In every run from an empty controller, as
/// long as all the size hints together fit the counter, it is the sum of the size hints
/// of what is staged: what is replaced or handed out no longer counts.
pub proof fn staged_bytes_are_counted(m: PressureModel, ops: Seq<Op>)
    requires
        m.rung < m.ladder.len(),
        m.staging == Map::<Seq<char>, StagedModel>::empty(),
        m.staged_bytes == 0,
        noted_total(ops) <= u64::MAX,
    ensures
        captures::run(m, ops).staging.dom().finite(),
        captures::run(m, ops).staged_bytes == staged_total(captures::run(m, ops).staging),
        0 <= captures::run(m, ops).staged_bytes <= noted_total(ops),
    decreases ops.len(),
{
    if ops.len() > 0 {
        let front = ops.drop_last();
        assert(noted_total(front) <= noted_total(ops));
        staged_bytes_are_counted(m, front);
        captures::run_settings(m, front);
        let before = captures::run(m, front);
        match ops.last() {
            Op::Note { path, capture, now } => {
                let t = pressure::noted(before, path, capture, now).0;
                if t.staging != before.staging {
                    total_after_insert(before.staging, path, t.staging[path]);
                    assert(t.staging =~= before.staging.insert(path, t.staging[path]));
                }
                if before.staging.dom().contains(path) {
                    total_without(before.staging, path);
                    assert(before.staging.remove(path).dom() =~= before.staging.dom().remove(path));
                    total_is_at_least(before.staging.remove(path));
                    total_after_insert(
                        before.staging,
                        path,
                        StagedModel {
                            capture,
                            staged_at: now,
                            due_at: t.staging[path].due_at,
                        },
                    );
                }
            },
            Op::Signals { .. } => {},
            Op::Poll { now } => {
                let s = captures::due_list(before.staging, now);
                let _ = due_listing(before.staging, now);
                assert forall|i: int, j: int| 0 <= i < s.len() && 0 <= j < s.len() && i != j implies (
                #[trigger] s[i]).0 != (#[trigger] s[j]).0 by {
                    crate::order::text_order(s[i].0, s[i].0, s[i].0);
                    if i < j {
                        assert(pressure::due_before(s[i], s[j]));
                    } else {
                        assert(pressure::due_before(s[j], s[i]));
                    }
                }
                let left = captures::after(before, ops.last()).staging;
                total_after_taking(before.staging, s, left);
                total_is_at_least(left);
            },
        }
    } else {
        assert(m.staging.dom().len() == 0);
    }
}

} // verus!
