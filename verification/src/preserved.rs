//! Nothing that an engine held is lost to history: the content of every head, and of
//! both sides of every conflict, is handed over to be recorded.

use crate::canonical;
use crate::convergence;
use crate::engine;
use crate::engine::{ActionModel, EngineModel, EventModel};
use crate::index;
use crate::index::{AbsorbOutcome, EntryState, HeadModel};
use crate::replicas;
use vstd::prelude::*;

verus! {

/// All the actions that a run asked for, in order.
pub open spec fn actions_of(m: EngineModel, es: Seq<EventModel>) -> Seq<ActionModel>
    decreases es.len(),
{
    if es.len() == 0 {
        seq![]
    } else {
        actions_of(m, es.drop_last()) + engine::step(
            replicas::run(m, es.drop_last()),
            es.last(),
        ).1
    }
}

/// The action records a version of path `p` with the content of `state`.
pub open spec fn records(a: ActionModel, p: Seq<char>, state: EntryState) -> bool {
    match a {
        ActionModel::RecordVersion { path, state: s, .. } => path == p && index::same_content(
            s,
            state,
        ),
        _ => false,
    }
}

/// One of the actions records a version of path `p` with the content of `state`.
pub open spec fn recorded_by(acts: Seq<ActionModel>, p: Seq<char>, state: EntryState) -> bool {
    exists|i: int| 0 <= i < acts.len() && records(#[trigger] acts[i], p, state)
}

/// The content of every head is recorded by one of the actions.
pub open spec fn heads_recorded(
    idx: Map<Seq<char>, Seq<HeadModel>>,
    acts: Seq<ActionModel>,
) -> bool {
    forall|p: Seq<char>, h: HeadModel|
        idx.dom().contains(p) && #[trigger] idx[p].contains(h) ==> recorded_by(acts, p, h.state)
}

/// Where the action reports a conflict, the contents of both sides are recorded by one
/// of the actions.
pub open spec fn sides_recorded(a: ActionModel, acts: Seq<ActionModel>) -> bool {
    match a {
        ActionModel::ConflictResolved { path, winner, loser, .. } => recorded_by(
            acts,
            path,
            winner,
        ) && recorded_by(acts, path, loser),
        _ => true,
    }
}

/// The contents of both sides of every conflict that is reported are recorded.
pub open spec fn conflicts_recorded(acts: Seq<ActionModel>) -> bool {
    forall|i: int| 0 <= i < acts.len() ==> sides_recorded(#[trigger] acts[i], acts)
}

/// Everything that is held, and everything that lost, is recorded.
spec fn nothing_lost(m: EngineModel, acts: Seq<ActionModel>) -> bool {
    heads_recorded(m.index, acts) && conflicts_recorded(acts)
}

/// What is recorded stays recorded when actions follow.
proof fn stays_recorded(
    acts: Seq<ActionModel>,
    more: Seq<ActionModel>,
    p: Seq<char>,
    state: EntryState,
)
    requires
        recorded_by(acts, p, state),
    ensures
        recorded_by(acts + more, p, state),
{
    let i = choose|i: int| 0 <= i < acts.len() && records(#[trigger] acts[i], p, state);
    assert((acts + more)[i] == acts[i]);
}

/// Actions that follow lose nothing, where the heads that are new and the sides of the
/// conflicts that are new are recorded.
proof fn still_nothing_lost(
    m: EngineModel,
    acts: Seq<ActionModel>,
    t: EngineModel,
    more: Seq<ActionModel>,
)
    requires
        nothing_lost(m, acts),
        forall|p: Seq<char>, h: HeadModel|
            t.index.dom().contains(p) && #[trigger] t.index[p].contains(h) ==> recorded_by(
                acts + more,
                p,
                h.state,
            ) || (m.index.dom().contains(p) && m.index[p].contains(h)),
        forall|i: int| 0 <= i < more.len() ==> sides_recorded(#[trigger] more[i], acts + more),
    ensures
        nothing_lost(t, acts + more),
{
    let all = acts + more;
    assert forall|p: Seq<char>, h: HeadModel|
        t.index.dom().contains(p) && #[trigger] t.index[p].contains(h) implies recorded_by(
        all,
        p,
        h.state,
    ) by {
        if !recorded_by(all, p, h.state) {
            assert(m.index[p].contains(h));
            stays_recorded(acts, more, p, h.state);
        }
    }
    assert forall|i: int| 0 <= i < all.len() implies sides_recorded(#[trigger] all[i], all) by {
        if i < acts.len() {
            assert(all[i] == acts[i]);
            assert(sides_recorded(acts[i], acts));
            match acts[i] {
                ActionModel::ConflictResolved { path, winner, loser, .. } => {
                    stays_recorded(acts, more, path, winner);
                    stays_recorded(acts, more, path, loser);
                },
                _ => {},
            }
        } else {
            assert(all[i] == more[i - acts.len()]);
        }
    }
}

/// The sides of a conflict are heads.
proof fn sides_are_heads(
    path: Seq<char>,
    heads: Seq<HeadModel>,
    w: HeadModel,
    adopted: bool,
    i: int,
)
    requires
        0 <= i < engine::conflict_actions(path, heads, w, adopted).len(),
    ensures
        engine::conflict_actions(path, heads, w, adopted)[i] matches ActionModel::ConflictResolved {
            path: q,
            winner,
            loser,
            ..
        } && q == path && winner == w.state && exists|h: HeadModel|
            heads.contains(h) && #[trigger] h.state == loser,
    decreases heads.len(),
{
    let front = heads.drop_last();
    let rest = engine::conflict_actions(path, front, w, adopted);
    if i < rest.len() {
        sides_are_heads(path, front, w, adopted, i);
        let h = choose|h: HeadModel|
            front.contains(h) && #[trigger] h.state == rest[i]->ConflictResolved_loser;
        let k = front.index_of(h);
        assert(heads[k] == h);
    } else {
        assert(heads[heads.len() - 1] == heads.last());
        assert(heads.contains(heads.last()));
    }
}

proof fn remote_loses_nothing(
    m: EngineModel,
    acts: Seq<ActionModel>,
    path: Seq<char>,
    h: HeadModel,
)
    requires
        nothing_lost(m, acts),
    ensures
        nothing_lost(
            engine::remote_step(m, path, h).0,
            acts + engine::remote_step(m, path, h).1,
        ),
{
    let (t, more) = engine::remote_step(m, path, h);
    let all = acts + more;
    if !m.index.dom().contains(path) {
        assert(records(more.last(), path, h.state));
        assert(all[all.len() - 1] == more.last());
        assert forall|p: Seq<char>, x: HeadModel|
            t.index.dom().contains(p) && #[trigger] t.index[p].contains(x) implies recorded_by(
            all,
            p,
            x.state,
        ) || (m.index.dom().contains(p) && m.index[p].contains(x)) by {
            if p == path {
                assert(x == h);
            }
        }
        still_nothing_lost(m, acts, t, more);
    } else {
        let heads = m.index[path];
        let after = index::absorbed(heads, h);
        let w = index::winner_of(after);
        match index::outcome(heads, h) {
            AbsorbOutcome::AlreadyKnown => {
                assert(all =~= acts);
            },
            AbsorbOutcome::Absorbed { winner_changed, new_conflict, novel_content } => {
                convergence::absorbed_comes_from(heads, h);
                assert(recorded_by(all, path, h.state)) by {
                    if novel_content {
                        assert(records(more.last(), path, h.state));
                        assert(all[all.len() - 1] == more.last());
                    } else {
                        let k = choose|k: int|
                            0 <= k < heads.len() && index::same_content(
                                (#[trigger] heads[k]).state,
                                h.state,
                            );
                        assert(heads.contains(heads[k]));
                        let i = choose|i: int|
                            0 <= i < acts.len() && records(
                                #[trigger] acts[i],
                                path,
                                heads[k].state,
                            );
                        assert(records(acts[i], path, h.state));
                        assert(all[i] == acts[i]);
                    }
                }
                assert forall|x: HeadModel| after.contains(x) implies #[trigger] recorded_by(
                    all,
                    path,
                    x.state,
                ) by {
                    if x != h {
                        assert(heads.contains(x));
                        stays_recorded(acts, more, path, x.state);
                    }
                }
                assert forall|i: int| 0 <= i < more.len() implies sides_recorded(
                    #[trigger] more[i],
                    all,
                ) by {
                    if more[i] is ConflictResolved {
                        let cs = engine::conflict_actions(path, after, w, index::adoption(after));
                        let k = i - engine::apply_actions(winner_changed, path, w.state).len();
                        assert(more[i] == cs[k]);
                        sides_are_heads(path, after, w, index::adoption(after), k);
                        canonical::winner_exists(after);
                        let x = choose|x: HeadModel|
                            after.contains(x) && #[trigger] x.state
                                == cs[k]->ConflictResolved_loser;
                        assert(recorded_by(all, path, x.state));
                        assert(recorded_by(all, path, w.state));
                    }
                }
                assert forall|p: Seq<char>, x: HeadModel|
                    t.index.dom().contains(p) && #[trigger] t.index[p].contains(
                        x,
                    ) implies recorded_by(all, p, x.state) || (m.index.dom().contains(p)
                    && m.index[p].contains(x)) by {
                    if p == path {
                        assert(after.contains(x));
                    }
                }
                still_nothing_lost(m, acts, t, more);
            },
        }
    }
}

proof fn remotes_lose_nothing(
    m: EngineModel,
    acts: Seq<ActionModel>,
    path: Seq<char>,
    hs: Seq<HeadModel>,
)
    requires
        nothing_lost(m, acts),
    ensures
        nothing_lost(
            engine::remote_steps(m, path, hs).0,
            acts + engine::remote_steps(m, path, hs).1,
        ),
    decreases hs.len(),
{
    if hs.len() == 0 {
        assert(acts + Seq::<ActionModel>::empty() =~= acts);
    } else {
        let done = engine::remote_steps(m, path, hs.drop_last());
        remotes_lose_nothing(m, acts, path, hs.drop_last());
        remote_loses_nothing(done.0, acts + done.1, path, hs.last());
        let next = engine::remote_step(done.0, path, hs.last());
        assert((acts + done.1) + next.1 =~= acts + (done.1 + next.1));
    }
}

proof fn sends_report_nothing(
    path: Seq<char>,
    heads: Seq<HeadModel>,
    peer: Seq<HeadModel>,
    i: int,
)
    requires
        0 <= i < engine::send_actions(path, heads, peer).len(),
    ensures
        engine::send_actions(path, heads, peer)[i] is Send,
    decreases heads.len(),
{
    if i < engine::send_actions(path, heads.drop_last(), peer).len() {
        sends_report_nothing(path, heads.drop_last(), peer, i);
    }
}

proof fn paths_lose_nothing(
    m: EngineModel,
    acts: Seq<ActionModel>,
    peer: Map<Seq<char>, Seq<HeadModel>>,
    ps: Seq<Seq<char>>,
)
    requires
        nothing_lost(m, acts),
    ensures
        nothing_lost(
            engine::path_steps(m, peer, ps).0,
            acts + engine::path_steps(m, peer, ps).1,
        ),
    decreases ps.len(),
{
    if ps.len() == 0 {
        assert(acts + Seq::<ActionModel>::empty() =~= acts);
    } else {
        let p = ps.last();
        let done = engine::path_steps(m, peer, ps.drop_last());
        paths_lose_nothing(m, acts, peer, ps.drop_last());
        let theirs = engine::peer_heads(peer, p);
        let took = engine::remote_steps(done.0, p, theirs);
        remotes_lose_nothing(done.0, acts + done.1, p, theirs);
        let next = engine::path_step(done.0, peer, p);
        let so_far = (acts + done.1) + took.1;
        let sends = if took.0.index.dom().contains(p) {
            engine::send_actions(p, took.0.index[p], theirs)
        } else {
            seq![]
        };
        assert forall|i: int| 0 <= i < sends.len() implies sides_recorded(
            #[trigger] sends[i],
            so_far + sends,
        ) by {
            sends_report_nothing(p, took.0.index[p], theirs, i);
        }
        still_nothing_lost(took.0, so_far, took.0, sends);
        assert(so_far + sends =~= acts + (done.1 + next.1));
    }
}

proof fn step_loses_nothing(m: EngineModel, acts: Seq<ActionModel>, e: EventModel)
    requires
        nothing_lost(m, acts),
    ensures
        nothing_lost(engine::step(m, e).0, acts + engine::step(m, e).1),
{
    let (t, more) = engine::step(m, e);
    match e {
        EventModel::Local { path, kind } => {
            assert forall|p: Seq<char>, x: HeadModel|
                t.index.dom().contains(p) && #[trigger] t.index[p].contains(x) implies recorded_by(
                acts + more,
                p,
                x.state,
            ) || (m.index.dom().contains(p) && m.index[p].contains(x)) by {
                if p == path && more.len() > 0 {
                    assert(records(more[1], p, x.state));
                    assert((acts + more)[acts.len() as int + 1] == more[1]);
                }
            }
            still_nothing_lost(m, acts, t, more);
        },
        EventModel::Remote { path, kind, version } => {
            remote_loses_nothing(
                m,
                acts,
                path,
                HeadModel { version, state: engine::kind_state(kind) },
            );
        },
        EventModel::PeerIndex { peer } => {
            paths_lose_nothing(
                m,
                acts,
                peer,
                engine::in_order(m.index.dom().union(peer.dom())),
            );
        },
    }
}

proof fn run_loses_nothing(replica: u64, es: Seq<EventModel>)
    ensures
        nothing_lost(
            replicas::run(replicas::fresh(replica), es),
            actions_of(replicas::fresh(replica), es),
        ),
    decreases es.len(),
{
    let m = replicas::fresh(replica);
    if es.len() > 0 {
        run_loses_nothing(replica, es.drop_last());
        step_loses_nothing(
            replicas::run(m, es.drop_last()),
            actions_of(m, es.drop_last()),
            es.last(),
        );
    }
}

/// Law: in whatever run of an engine that started with nothing, the content of every
/// head that it has was handed over to be recorded, as a version of the head's path.
pub proof fn every_head_is_recorded(replica: u64, es: Seq<EventModel>, p: Seq<char>, h: HeadModel)
    requires
        replicas::run(replicas::fresh(replica), es).index.dom().contains(p),
        replicas::run(replicas::fresh(replica), es).index[p].contains(h),
    ensures
        recorded_by(actions_of(replicas::fresh(replica), es), p, h.state),
{
    run_loses_nothing(replica, es);
}

/// Law: the loser of a conflict is preserved in history, and so is the winner: whenever
/// a run reports a conflict, the contents of both sides are among what was handed over
/// to be recorded, as versions of the path.
pub proof fn losers_are_recorded(replica: u64, es: Seq<EventModel>, i: int)
    requires
        0 <= i < actions_of(replicas::fresh(replica), es).len(),
    ensures
        sides_recorded(
            actions_of(replicas::fresh(replica), es)[i],
            actions_of(replicas::fresh(replica), es),
        ),
{
    run_loses_nothing(replica, es);
}

/// Law: what was recorded of a run stays recorded, whatever happens later: a head that
/// was once held is not lost when a newer version supersedes it.
pub proof fn superseded_heads_stay_recorded(
    replica: u64,
    es: Seq<EventModel>,
    later: Seq<EventModel>,
    p: Seq<char>,
    h: HeadModel,
)
    requires
        replicas::run(replicas::fresh(replica), es).index.dom().contains(p),
        replicas::run(replicas::fresh(replica), es).index[p].contains(h),
    ensures
        recorded_by(actions_of(replicas::fresh(replica), es + later), p, h.state),
    decreases later.len(),
{
    let m = replicas::fresh(replica);
    if later.len() == 0 {
        assert(es + later =~= es);
        every_head_is_recorded(replica, es, p, h);
    } else {
        superseded_heads_stay_recorded(replica, es, later.drop_last(), p, h);
        let all = es + later;
        assert(all.drop_last() =~= es + later.drop_last());
        stays_recorded(
            actions_of(m, all.drop_last()),
            engine::step(replicas::run(m, all.drop_last()), all.last()).1,
            p,
            h.state,
        );
    }
}

} // verus!
