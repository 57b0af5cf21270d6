//! Laws of the pressure controller: no final write is lost, and no checkpoint
//! waits longer than the longest interval.

use crate::pressure;
use crate::pressure::{CaptureModel, HistoryMode, PressureModel, StagedModel};
use vstd::prelude::*;

verus! {

/// One use of the controller.
pub ghost enum Op {
    /// A version of `path` is to be captured.
    Note { path: Seq<char>, capture: CaptureModel, now: u64 },
    /// The history-queue depth is fed.
    Signals { depth: u64, now: u64 },
    /// The due captures are asked for.
    Poll { now: u64 },
}

/// The time of a use.
pub open spec fn time_of(op: Op) -> u64 {
    match op {
        Op::Note { now, .. } => now,
        Op::Signals { now, .. } => now,
        Op::Poll { now } => now,
    }
}

/// Every capture of `staging` that is due by `now`, in order.
pub open spec fn due_list(staging: Map<Seq<char>, StagedModel>, now: u64) -> Seq<
    (Seq<char>, StagedModel),
> {
    choose|s: Seq<(Seq<char>, StagedModel)>| pressure::is_due_list(s, staging, now)
}

/// The state after one use.
pub open spec fn after(m: PressureModel, op: Op) -> PressureModel {
    match op {
        Op::Note { path, capture, now } => pressure::noted(m, path, capture, now).0,
        Op::Signals { depth, now } => pressure::signalled(m, depth, now),
        Op::Poll { now } => pressure::polled(m, now, due_list(m.staging, now)),
    }
}

/// The state after the uses, in their order.
pub open spec fn run(m: PressureModel, ops: Seq<Op>) -> PressureModel
    decreases ops.len(),
{
    if ops.len() == 0 {
        m
    } else {
        after(run(m, ops.drop_last()), ops.last())
    }
}

/// The latest capture noted for path `p`.
pub open spec fn latest(ops: Seq<Op>, p: Seq<char>) -> Option<CaptureModel>
    decreases ops.len(),
{
    if ops.len() == 0 {
        None
    } else {
        match ops.last() {
            Op::Note { path, capture, .. } => if path == p {
                Some(capture)
            } else {
                latest(ops.drop_last(), p)
            },
            _ => latest(ops.drop_last(), p),
        }
    }
}

/// The latest capture of `p` was recorded: at once, or handed out by a poll.
pub open spec fn recorded(m: PressureModel, ops: Seq<Op>, p: Seq<char>) -> bool
    decreases ops.len(),
{
    if ops.len() == 0 {
        false
    } else {
        let before = run(m, ops.drop_last());
        match ops.last() {
            Op::Note { path, capture, now } => if path == p {
                pressure::noted(before, path, capture, now).1 is Immediate
            } else {
                recorded(m, ops.drop_last(), p)
            },
            Op::Signals { .. } => recorded(m, ops.drop_last(), p),
            Op::Poll { now } => recorded(m, ops.drop_last(), p) || (before.staging.dom().contains(p)
                && before.staging[p].due_at <= now),
        }
    }
}

/// The times never go back.
pub open spec fn in_time(ops: Seq<Op>) -> bool {
    forall|i: int, j: int|
        0 <= i <= j < ops.len() ==> time_of(#[trigger] ops[i]) <= time_of(#[trigger] ops[j])
}

/// No interval of the policy is longer than `limit`.
pub open spec fn intervals_within(m: PressureModel, limit: u64) -> bool {
    match m.mode {
        HistoryMode::IntervalMs(k) => k <= limit,
        HistoryMode::Adaptive => forall|i: int| 0 <= i < m.ladder.len() ==> m.ladder[i] <= limit,
        _ => true,
    }
}

proof fn settings_stay(m: PressureModel, op: Op)
    requires
        m.rung < m.ladder.len(),
    ensures
        after(m, op).mode == m.mode,
        after(m, op).ladder == m.ladder,
        after(m, op).rung < m.ladder.len(),
{
}

/// The settings stay as they are, and the rung stays on the ladder.
pub proof fn run_settings(m: PressureModel, ops: Seq<Op>)
    requires
        m.rung < m.ladder.len(),
    ensures
        run(m, ops).mode == m.mode,
        run(m, ops).ladder == m.ladder,
        run(m, ops).rung < m.ladder.len(),
    decreases ops.len(),
{
    if ops.len() > 0 {
        run_settings(m, ops.drop_last());
        settings_stay(run(m, ops.drop_last()), ops.last());
    }
}

/// Law: no final write is lost. Whatever was noted and polled, the latest
/// capture of every path was recorded or is still staged; and what is staged
/// for a path is always its latest capture.
pub proof fn no_final_write_is_lost(m: PressureModel, ops: Seq<Op>, p: Seq<char>)
    requires
        m.rung < m.ladder.len(),
        m.staging == Map::<Seq<char>, StagedModel>::empty(),
        !(m.mode is Off),
    ensures
        latest(ops, p) is Some ==> recorded(m, ops, p) || run(m, ops).staging.dom().contains(p),
        run(m, ops).staging.dom().contains(p) ==> latest(ops, p) == Some(
            run(m, ops).staging[p].capture,
        ),
        m.mode is EveryChange ==> !run(m, ops).staging.dom().contains(p),
    decreases ops.len(),
{
    if ops.len() > 0 {
        no_final_write_is_lost(m, ops.drop_last(), p);
        run_settings(m, ops.drop_last());
    }
}

/// Law: only a controller that is switched off drops a capture.
pub proof fn only_off_drops(m: PressureModel, path: Seq<char>, c: CaptureModel, now: u64)
    ensures
        pressure::noted(m, path, c, now).1 is Dropped <==> m.mode is Off,
{
}

/// Law: a newer capture never postpones what is pending for its path.
pub proof fn replacement_never_postpones(
    m: PressureModel,
    path: Seq<char>,
    c: CaptureModel,
    now: u64,
)
    requires
        m.staging.dom().contains(path),
    ensures
        pressure::noted(m, path, c, now).0.staging.dom().contains(path),
        pressure::noted(m, path, c, now).0.staging[path].due_at <= m.staging[path].due_at,
{
}

/// Law: nothing is staged for longer than the longest interval. What is staged
/// came in no later than the last use, and it is due within `limit` of when it
/// came in.
pub proof fn staleness_is_bounded(m: PressureModel, ops: Seq<Op>, limit: u64, p: Seq<char>)
    requires
        m.rung < m.ladder.len(),
        m.staging == Map::<Seq<char>, StagedModel>::empty(),
        intervals_within(m, limit),
        in_time(ops),
        run(m, ops).staging.dom().contains(p),
    ensures
        ops.len() > 0,
        run(m, ops).staging[p].staged_at <= time_of(ops.last()),
        run(m, ops).staging[p].due_at <= pressure::plus(
            run(m, ops).staging[p].staged_at,
            limit,
        ),
    decreases ops.len(),
{
    if ops.len() > 0 {
        let before = ops.drop_last();
        run_settings(m, before);
        assert(in_time(before)) by {
            assert forall|i: int, j: int| 0 <= i <= j < before.len() implies time_of(
                #[trigger] before[i],
            ) <= time_of(#[trigger] before[j]) by {
                assert(before[i] == ops[i] && before[j] == ops[j]);
            }
        }
        let mid = run(m, before);
        if mid.staging.dom().contains(p) {
            staleness_is_bounded(m, before, limit, p);
            assert(time_of(ops[before.len() - 1]) <= time_of(ops[ops.len() - 1]));
            assert(before.last() == ops[before.len() - 1]);
        }
        match ops.last() {
            Op::Note { path, capture, now } => {
                if path == p {
                    let n = pressure::noticed(mid, now);
                    assert(n.rung < n.ladder.len());
                }
            },
            _ => {},
        }
    }
}

/// Law: a poll after the longest interval drains everything, and every path's
/// latest capture has then been recorded.
pub proof fn a_late_poll_drains(m: PressureModel, ops: Seq<Op>, limit: u64, now: u64, p: Seq<char>)
    requires
        m.rung < m.ladder.len(),
        m.staging == Map::<Seq<char>, StagedModel>::empty(),
        !(m.mode is Off),
        intervals_within(m, limit),
        in_time(ops),
        ops.len() > 0,
        now >= pressure::plus(time_of(ops.last()), limit),
    ensures
        !run(m, ops.push(Op::Poll { now })).staging.dom().contains(p),
        latest(ops, p) is Some ==> recorded(m, ops.push(Op::Poll { now }), p),
{
    let more = ops.push(Op::Poll { now });
    assert(more.drop_last() =~= ops);
    no_final_write_is_lost(m, ops, p);
    if run(m, ops).staging.dom().contains(p) {
        staleness_is_bounded(m, ops, limit, p);
    }
}

/// Law: without an idle period the controller never steps down.
pub proof fn rungs_hold_without_idle(m: PressureModel, path: Seq<char>, c: CaptureModel, now: u64)
    requires
        m.decay_idle == 0 || now < m.anchor + m.decay_idle,
    ensures
        pressure::noted(m, path, c, now).0.rung >= m.rung,
{
    if m.decay_idle > 0 && now > m.anchor {
        let idle = now - m.anchor;
        assert(idle / m.decay_idle as int == 0) by (nonlinear_arith)
            requires
                0 <= idle < m.decay_idle,
        ;
    }
}

/// Law: each whole idle period takes the controller down one rung, and enough
/// of them take it to the bottom.
pub proof fn idle_periods_step_down(m: PressureModel, periods: nat)
    requires
        m.decay_idle > 0,
        m.anchor + periods * m.decay_idle <= u64::MAX,
    ensures
        pressure::decayed(m, (m.anchor + periods * m.decay_idle) as u64).rung == if periods
            >= m.rung {
            0
        } else {
            (m.rung - periods) as nat
        },
{
    let d = m.decay_idle as int;
    assert((periods * d) / d == periods) by (nonlinear_arith)
        requires
            d > 0,
    ;
    assert(periods * d >= 0) by (nonlinear_arith)
        requires
            d > 0,
    ;
    if periods > 0 {
        assert(periods * d > 0) by (nonlinear_arith)
            requires
                d > 0,
                periods > 0,
        ;
    }
}

/// Law: polling at the earliest deadline hands something out.
pub proof fn next_deadline_is_pollable(
    staging: Map<Seq<char>, StagedModel>,
    p: Seq<char>,
    s: Seq<(Seq<char>, StagedModel)>,
)
    requires
        staging.dom().contains(p),
        pressure::is_due_list(s, staging, staging[p].due_at),
    ensures
        s.len() > 0,
{
    assert(pressure::hands_out(s, p));
}

} // verus!
