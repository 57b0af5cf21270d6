//! What the tree on disk shows, and how the engine keeps it in step with the index:
//! what is written follows the winner, and what is changed locally is taken in.

use crate::convergence;
use crate::echoes;
use crate::engine;
use crate::engine::{ActionModel, EngineModel, EventModel, Expectation};
use crate::event::ChangeKind;
use crate::index;
use crate::index::{AbsorbOutcome, ContentSig, EntryState, HeadModel};
use crate::replicas;
use vstd::prelude::*;

verus! {

// ---- what a path shows -----------------------------------------------------
/// Two looks at a path show the same: no file, or files of the same hash, size and
/// mode. The modification time does not count.
pub open spec fn alike(a: Option<ContentSig>, b: Option<ContentSig>) -> bool {
    match (a, b) {
        (Some(x), Some(y)) => x.hash == y.hash && x.size == y.size && x.exec_bit == y.exec_bit,
        (None, None) => true,
        _ => false,
    }
}

/// What a local change shows.
pub open spec fn seen_of(kind: ChangeKind) -> Option<ContentSig> {
    match kind {
        ChangeKind::Modified(sig) => Some(sig),
        ChangeKind::Removed => None,
    }
}

/// What a write leaves.
pub open spec fn left_by(target: Expectation) -> Option<ContentSig> {
    match target {
        Expectation::Present(sig) => Some(sig),
        Expectation::Absent => None,
    }
}

/// What a state says of a path.
pub open spec fn said_by(state: EntryState) -> Option<ContentSig> {
    match state {
        EntryState::Present(sig) => Some(sig),
        EntryState::Tombstone => None,
    }
}

/// What the last write at `p` leaves, if the actions ask for one.
pub open spec fn last_write(acts: Seq<ActionModel>, p: Seq<char>) -> Option<Option<ContentSig>>
    decreases acts.len(),
{
    if acts.len() == 0 {
        None
    } else {
        match acts.last() {
            ActionModel::Apply { path, target } => if path == p {
                Some(left_by(target))
            } else {
                last_write(acts.drop_last(), p)
            },
            _ => last_write(acts.drop_last(), p),
        }
    }
}

/// How many writes at `p` that leave `x` the actions ask for.
pub open spec fn writes_of(acts: Seq<ActionModel>, p: Seq<char>, x: Option<ContentSig>) -> nat
    decreases acts.len(),
{
    if acts.len() == 0 {
        0
    } else {
        writes_of(acts.drop_last(), p, x) + (match acts.last() {
            ActionModel::Apply { path, target } => if path == p && alike(left_by(target), x) {
                1nat
            } else {
                0
            },
            _ => 0,
        })
    }
}

/// How many writes at `p` that leave `x` have been asked for in a run and have not been
/// seen: a local event that shows such a write uses one of them up.
pub open spec fn unseen(
    m: EngineModel,
    es: Seq<EventModel>,
    p: Seq<char>,
    x: Option<ContentSig>,
) -> nat
    decreases es.len(),
{
    if es.len() == 0 {
        0
    } else {
        let before = unseen(m, es.drop_last(), p, x);
        let acts = engine::step(replicas::run(m, es.drop_last()), es.last()).1;
        let left = match es.last() {
            EventModel::Local { path, kind } => if path == p && alike(seen_of(kind), x) && before
                > 0 {
                (before - 1) as nat
            } else {
                before
            },
            _ => before,
        };
        left + writes_of(acts, p, x)
    }
}

/// What is on disk at `p` after a run, which began with `start` there: what the last
/// write left that was asked for, or what the last local event showed. A local event
/// that shows a write which was asked for and not seen yet is the echo of that write,
/// and tells nothing new.
pub open spec fn on_disk(
    m: EngineModel,
    start: Option<ContentSig>,
    es: Seq<EventModel>,
    p: Seq<char>,
) -> Option<ContentSig>
    decreases es.len(),
{
    if es.len() == 0 {
        start
    } else {
        let before = on_disk(m, start, es.drop_last(), p);
        match last_write(engine::step(replicas::run(m, es.drop_last()), es.last()).1, p) {
            Some(x) => x,
            None => match es.last() {
                EventModel::Local { path, kind } => if path == p && unseen(
                    m,
                    es.drop_last(),
                    p,
                    seen_of(kind),
                ) == 0 {
                    seen_of(kind)
                } else {
                    before
                },
                _ => before,
            },
        }
    }
}

// ---- the engine's own account of it ----------------------------------------
/// The write that leaves `x`.
spec fn writing(x: Option<ContentSig>) -> Expectation {
    match x {
        Some(sig) => Expectation::Present(sig),
        None => Expectation::Absent,
    }
}

proof fn same_writes(acts: Seq<ActionModel>, p: Seq<char>, x: Option<ContentSig>)
    ensures
        writes_of(acts, p, x) == echoes::writes_in(acts, p, writing(x)),
    decreases acts.len(),
{
    if acts.len() > 0 {
        same_writes(acts.drop_last(), p, x);
    }
}

proof fn local_asks_for_nothing(
    m: EngineModel,
    path: Seq<char>,
    kind: ChangeKind,
    q: Seq<char>,
    x: Option<ContentSig>,
)
    ensures
        writes_of(engine::local_step(m, path, kind).1, q, x) == 0,
        last_write(engine::local_step(m, path, kind).1, q) is None,
{
    nothing_is_written(engine::local_step(m, path, kind).1, q, x);
}

proof fn nothing_is_written(acts: Seq<ActionModel>, q: Seq<char>, x: Option<ContentSig>)
    requires
        forall|i: int|
            0 <= i < acts.len() ==> !((#[trigger] acts[i]) matches ActionModel::Apply { path, .. }
                && path == q),
    ensures
        writes_of(acts, q, x) == 0,
        last_write(acts, q) is None,
    decreases acts.len(),
{
    if acts.len() > 0 {
        let front = acts.drop_last();
        assert forall|i: int| 0 <= i < front.len() implies !((#[trigger] front[i]) matches
            ActionModel::Apply { path, .. } && path == q) by {
            assert(front[i] == acts[i]);
        }
        nothing_is_written(front, q, x);
        assert(acts[acts.len() - 1] == acts.last());
    }
}

proof fn last_write_of_both(a: Seq<ActionModel>, b: Seq<ActionModel>, p: Seq<char>)
    ensures
        last_write(a + b, p) == (match last_write(b, p) {
            Some(x) => Some(x),
            None => last_write(a, p),
        }),
    decreases b.len(),
{
    if b.len() == 0 {
        assert(a + b =~= a);
    } else {
        assert((a + b).drop_last() =~= a + b.drop_last());
        last_write_of_both(a, b.drop_last(), p);
    }
}

/// What is expected at `p` is what has been asked for and not been seen.
proof fn the_journal_keeps_count(
    m: EngineModel,
    es: Seq<EventModel>,
    p: Seq<char>,
    x: Option<ContentSig>,
)
    requires
        m.echo == Map::<Seq<char>, Seq<Expectation>>::empty(),
    ensures
        unseen(m, es, p, x) == echoes::outstanding(replicas::run(m, es).echo, p, writing(x)),
    decreases es.len(),
{
    if es.len() > 0 {
        let front = es.drop_last();
        let before = replicas::run(m, front);
        the_journal_keeps_count(m, front, p, x);
        let acts = engine::step(before, es.last()).1;
        same_writes(acts, p, x);
        match es.last() {
            EventModel::Local { path, kind } => {
                local_asks_for_nothing(before, path, kind, p, x);
                the_journal_keeps_count(m, front, path, seen_of(kind));
                assert(echoes::shown(kind) == writing(seen_of(kind)));
                if echoes::outstanding(before.echo, path, echoes::shown(kind)) > 0 {
                    echoes::an_echo_settles_one_write(before, path, kind);
                    if path == p && alike(seen_of(kind), x) {
                        alike_writes_count_alike(
                            engine::pending(before.echo, p),
                            seen_of(kind),
                            x,
                        );
                        alike_writes_count_alike(
                            engine::pending(engine::step(before, es.last()).0.echo, p),
                            seen_of(kind),
                            x,
                        );
                    }
                } else {
                    echoes::nothing_outstanding(before, path, kind);
                    assert(engine::step(before, es.last()).0.echo == before.echo);
                    if path == p && alike(seen_of(kind), x) {
                        alike_writes_count_alike(
                            engine::pending(before.echo, p),
                            seen_of(kind),
                            x,
                        );
                    }
                }
            },
            _ => {
                echoes::every_write_is_expected(before, es.last(), p, writing(x));
            },
        }
    }
}

proof fn alike_writes_count_alike(
    list: Seq<Expectation>,
    x: Option<ContentSig>,
    y: Option<ContentSig>,
)
    requires
        alike(x, y),
    ensures
        echoes::matches_in(list, writing(x)) == echoes::matches_in(list, writing(y)),
    decreases list.len(),
{
    if list.len() > 0 {
        alike_writes_count_alike(list.drop_last(), x, y);
    }
}

/// What holds of the engine at `p` while `d` is on disk there.
spec fn in_step(m: EngineModel, p: Seq<char>, d: Option<ContentSig>) -> bool {
    if m.index.dom().contains(p) {
        m.index[p].len() > 0 && alike(d, said_by(index::winner_of(m.index[p]).state))
    } else {
        d is None && engine::pending(m.echo, p).len() == 0
    }
}

/// What is on disk after the actions.
spec fn then_on_disk(d: Option<ContentSig>, acts: Seq<ActionModel>, p: Seq<char>) -> Option<
    ContentSig,
> {
    match last_write(acts, p) {
        Some(x) => x,
        None => d,
    }
}

proof fn remote_stays_in_step(
    m: EngineModel,
    at: Seq<char>,
    h: HeadModel,
    p: Seq<char>,
    d: Option<ContentSig>,
)
    requires
        in_step(m, p, d),
    ensures
        in_step(
            engine::remote_step(m, at, h).0,
            p,
            then_on_disk(d, engine::remote_step(m, at, h).1, p),
        ),
{
    let (t, acts) = engine::remote_step(m, at, h);
    if !m.index.dom().contains(at) {
        let a = engine::apply_actions(h.state is Present, at, h.state);
        let b = engine::record_actions(true, at, h);
        last_write_of_both(a, b, p);
        assert(b.drop_last() =~= Seq::<ActionModel>::empty());
        assert(last_write(b, p) is None);
        if h.state is Present {
            assert(a.drop_last() =~= Seq::<ActionModel>::empty());
            assert(last_write(a.drop_last(), p) is None);
        }
        replicas::single_winner(h);
        assert(h.state is Present ==> a.last() == (ActionModel::Apply {
            path: at,
            target: engine::state_target(h.state),
        }));
    } else {
        let heads = m.index[at];
        let after = index::absorbed(heads, h);
        let w = index::winner_of(after);
        match index::outcome(heads, h) {
            AbsorbOutcome::AlreadyKnown => {
                assert(acts =~= Seq::<ActionModel>::empty());
            },
            AbsorbOutcome::Absorbed { winner_changed, new_conflict, novel_content } => {
                convergence::absorbed_comes_from(heads, h);
                let a = engine::apply_actions(winner_changed, at, w.state);
                let b = if new_conflict {
                    engine::conflict_actions(at, after, w, index::adoption(after))
                } else {
                    seq![]
                };
                let c = engine::record_actions(novel_content, at, h);
                replicas::conflicts_never_apply(at, after, w, index::adoption(after));
                nothing_is_written(b, p, None);
                nothing_is_written(c, p, None);
                last_write_of_both(a, b, p);
                last_write_of_both(a + b, c, p);
                if winner_changed {
                    assert(a.drop_last() =~= Seq::<ActionModel>::empty());
                    assert(last_write(a.drop_last(), p) is None);
                    assert(a.last() == (ActionModel::Apply {
                        path: at,
                        target: engine::state_target(w.state),
                    }));
                } else {
                    assert(a =~= Seq::<ActionModel>::empty());
                }
            },
        }
    }
}

proof fn remotes_stay_in_step(
    m: EngineModel,
    at: Seq<char>,
    hs: Seq<HeadModel>,
    p: Seq<char>,
    d: Option<ContentSig>,
)
    requires
        in_step(m, p, d),
    ensures
        in_step(
            engine::remote_steps(m, at, hs).0,
            p,
            then_on_disk(d, engine::remote_steps(m, at, hs).1, p),
        ),
    decreases hs.len(),
{
    if hs.len() > 0 {
        let done = engine::remote_steps(m, at, hs.drop_last());
        remotes_stay_in_step(m, at, hs.drop_last(), p, d);
        remote_stays_in_step(done.0, at, hs.last(), p, then_on_disk(d, done.1, p));
        last_write_of_both(done.1, engine::remote_step(done.0, at, hs.last()).1, p);
    }
}

proof fn sends_write_nothing(
    at: Seq<char>,
    heads: Seq<HeadModel>,
    peer: Seq<HeadModel>,
    p: Seq<char>,
)
    ensures
        last_write(engine::send_actions(at, heads, peer), p) is None,
    decreases heads.len(),
{
    if heads.len() > 0 {
        sends_write_nothing(at, heads.drop_last(), peer, p);
        let rest = engine::send_actions(at, heads.drop_last(), peer);
        let h = heads.last();
        let send = ActionModel::Send {
            path: at,
            kind: engine::state_kind(h.state),
            version: h.version,
        };
        assert(rest.push(send).drop_last() =~= rest);
    }
}

proof fn paths_stay_in_step(
    m: EngineModel,
    peer: Map<Seq<char>, Seq<HeadModel>>,
    ps: Seq<Seq<char>>,
    p: Seq<char>,
    d: Option<ContentSig>,
)
    requires
        in_step(m, p, d),
    ensures
        in_step(
            engine::path_steps(m, peer, ps).0,
            p,
            then_on_disk(d, engine::path_steps(m, peer, ps).1, p),
        ),
    decreases ps.len(),
{
    if ps.len() > 0 {
        let at = ps.last();
        let done = engine::path_steps(m, peer, ps.drop_last());
        paths_stay_in_step(m, peer, ps.drop_last(), p, d);
        let theirs = engine::peer_heads(peer, at);
        let took = engine::remote_steps(done.0, at, theirs);
        remotes_stay_in_step(done.0, at, theirs, p, then_on_disk(d, done.1, p));
        let sends = if took.0.index.dom().contains(at) {
            engine::send_actions(at, took.0.index[at], theirs)
        } else {
            seq![]
        };
        if took.0.index.dom().contains(at) {
            sends_write_nothing(at, took.0.index[at], theirs, p);
        }
        last_write_of_both(took.1, sends, p);
        last_write_of_both(done.1, took.1 + sends, p);
    }
}

proof fn runs_stay_in_step(
    m: EngineModel,
    start: Option<ContentSig>,
    es: Seq<EventModel>,
    p: Seq<char>,
)
    requires
        m.echo == Map::<Seq<char>, Seq<Expectation>>::empty(),
        in_step(m, p, start),
    ensures
        in_step(replicas::run(m, es), p, on_disk(m, start, es, p)),
    decreases es.len(),
{
    if es.len() > 0 {
        let front = es.drop_last();
        let before = replicas::run(m, front);
        let d = on_disk(m, start, front, p);
        runs_stay_in_step(m, start, front, p);
        match es.last() {
            EventModel::Local { path, kind } => {
                local_asks_for_nothing(before, path, kind, p, None);
                the_journal_keeps_count(m, front, path, seen_of(kind));
                assert(echoes::shown(kind) == writing(seen_of(kind)));
                if unseen(m, front, path, seen_of(kind)) > 0 {
                    echoes::an_echo_settles_one_write(before, path, kind);
                    if path != p {
                        assert(engine::pending(engine::step(before, es.last()).0.echo, p)
                            == engine::pending(before.echo, p));
                    }
                } else {
                    echoes::nothing_outstanding(before, path, kind);
                    let h = HeadModel {
                        version: engine::next_version(before, path),
                        state: engine::kind_state(kind),
                    };
                    replicas::single_winner(h);
                }
            },
            EventModel::Remote { path, kind, version } => {
                remote_stays_in_step(
                    before,
                    path,
                    HeadModel { version, state: engine::kind_state(kind) },
                    p,
                    d,
                );
            },
            EventModel::PeerIndex { peer } => {
                paths_stay_in_step(
                    before,
                    peer,
                    engine::in_order(before.index.dom().union(peer.dom())),
                    p,
                    d,
                );
            },
        }
    }
}

/// Law: the disk follows the winner. After every event of every run, what is on disk at
/// a path that the engine knows is what the winner of that path says, whether the run
/// edited locally, took in versions of the peer, settled conflicts or reconciled; and
/// at a path that it does not know there is no file.
///
/// The run starts with the tree that the index describes, as an engine does that was
/// brought up from its own index, or a new one in an empty tree.
pub proof fn the_disk_follows_the_winner(
    m: EngineModel,
    start: Option<ContentSig>,
    es: Seq<EventModel>,
    p: Seq<char>,
)
    requires
        m.echo == Map::<Seq<char>, Seq<Expectation>>::empty(),
        engine::inhabited(m.index),
        m.index.dom().contains(p) ==> alike(start, said_by(index::winner_of(m.index[p]).state)),
        !m.index.dom().contains(p) ==> start is None,
    ensures
        ({
            let t = replicas::run(m, es);
            &&& t.index.dom().contains(p) ==> alike(
                on_disk(m, start, es, p),
                said_by(index::winner_of(t.index[p]).state),
            )
            &&& !t.index.dom().contains(p) ==> on_disk(m, start, es, p) is None
        }),
{
    assert(engine::pending(m.echo, p) =~= Seq::<Expectation>::empty());
    runs_stay_in_step(m, start, es, p);
}

/// Law: a new engine in an empty tree keeps the disk in step with its winners.
pub proof fn a_new_engine_keeps_the_disk_in_step(
    replica: u64,
    es: Seq<EventModel>,
    p: Seq<char>,
)
    ensures
        ({
            let t = replicas::run(replicas::fresh(replica), es);
            let d = on_disk(replicas::fresh(replica), None, es, p);
            &&& t.index.dom().contains(p) ==> alike(
                d,
                said_by(index::winner_of(t.index[p]).state),
            )
            &&& !t.index.dom().contains(p) ==> d is None
        }),
{
    the_disk_follows_the_winner(replicas::fresh(replica), None, es, p);
}

// ---- local changes ---------------------------------------------------------
/// The state that a change of this kind leads to.
pub open spec fn state_of(kind: ChangeKind) -> EntryState {
    match kind {
        ChangeKind::Modified(sig) => EntryState::Present(sig),
        ChangeKind::Removed => EntryState::Tombstone,
    }
}

/// The actions send the change and record it, both under the clock `v`, and do nothing
/// else.
pub open spec fn minted(
    acts: Seq<ActionModel>,
    path: Seq<char>,
    kind: ChangeKind,
    v: Seq<(u64, u64)>,
) -> bool {
    acts == seq![
        ActionModel::Send { path, kind, version: v },
        ActionModel::RecordVersion { path, state: state_of(kind), version: v },
    ]
}

/// No write is outstanding at `path` that leaves what the change shows.
pub open spec fn no_echo(m: EngineModel, path: Seq<char>, kind: ChangeKind) -> bool {
    m.echo.dom().contains(path) ==> forall|i: int|
        0 <= i < m.echo[path].len() ==> !alike(
            left_by(#[trigger] m.echo[path][i]),
            seen_of(kind),
        )
}

proof fn no_echo_is_expected(m: EngineModel, path: Seq<char>, kind: ChangeKind)
    ensures
        no_echo(m, path, kind) <==> !engine::expects(
            m.echo,
            path,
            engine::state_target(engine::kind_state(kind)),
        ),
{
    let e = engine::state_target(engine::kind_state(kind));
    let list = engine::pending(m.echo, path);
    engine::first_match_spec(list, e, 0);
    if !engine::expects(m.echo, path, e) && m.echo.dom().contains(path) {
        assert forall|i: int| 0 <= i < m.echo[path].len() implies !alike(
            left_by(#[trigger] m.echo[path][i]),
            seen_of(kind),
        ) by {
            assert(!engine::matching(list[i], e));
        }
    }
}

/// Law: every real local change is taken in. Where it is no echo, and either shows
/// something else than the winner of its path or is a file at a path that is not known,
/// it becomes a version: one change to send and one version to record, both of this
/// path, of what the change shows and of one clock, and nothing else. That version is
/// then all that the index has of the path, and so its winner. Other paths stay.
pub proof fn every_local_change_is_taken_in(m: EngineModel, path: Seq<char>, kind: ChangeKind)
    requires
        no_echo(m, path, kind),
        m.index.dom().contains(path) ==> !alike(
            said_by(index::winner_of(m.index[path]).state),
            seen_of(kind),
        ),
        !m.index.dom().contains(path) ==> kind is Modified,
    ensures
        ({
            let (t, acts) = engine::step(m, EventModel::Local { path, kind });
            &&& exists|v: Seq<(u64, u64)>|
                #[trigger] minted(acts, path, kind, v) && t.index[path] == seq![
                    HeadModel { version: v, state: state_of(kind) },
                ]
            &&& t.index.dom().contains(path)
            &&& said_by(index::winner_of(t.index[path]).state) == seen_of(kind)
            &&& t.index.remove(path) == m.index.remove(path)
            &&& t.echo == m.echo
            &&& t.replica == m.replica
        }),
{
    no_echo_is_expected(m, path, kind);
    let (t, acts) = engine::step(m, EventModel::Local { path, kind });
    let h = HeadModel {
        version: engine::next_version(m, path),
        state: engine::kind_state(kind),
    };
    replicas::single_winner(h);
    assert(minted(acts, path, kind, h.version));
    assert(t.index.remove(path) =~= m.index.remove(path));
}

/// Law: what is no change is not taken for one. A local event that is no echo and shows
/// what the winner says, or the removal of a path that is not known, does nothing.
pub proof fn what_is_already_so_is_no_change(m: EngineModel, path: Seq<char>, kind: ChangeKind)
    requires
        no_echo(m, path, kind),
        m.index.dom().contains(path) ==> alike(
            said_by(index::winner_of(m.index[path]).state),
            seen_of(kind),
        ),
        !m.index.dom().contains(path) ==> kind is Removed,
    ensures
        engine::step(m, EventModel::Local { path, kind }) == (m, Seq::<ActionModel>::empty()),
{
    no_echo_is_expected(m, path, kind);
}

/// Law: the version of a local change comes after every version that the engine has of
/// the path, and counts one local event more than the engine knew of.
pub proof fn a_local_version_comes_after_all(
    m: EngineModel,
    path: Seq<char>,
    kind: ChangeKind,
    i: int,
)
    requires
        no_echo(m, path, kind),
        m.index.dom().contains(path),
        !alike(said_by(index::winner_of(m.index[path]).state), seen_of(kind)),
        0 <= i < m.index[path].len(),
        engine::own_count(m, path) < u64::MAX,
    ensures
        ({
            let t = engine::step(m, EventModel::Local { path, kind }).0;
            &&& crate::clock::before(m.index[path][i].version, t.index[path][0].version)
            &&& crate::clock::count(t.index[path][0].version, m.replica) == engine::own_count(
                m,
                path,
            ) + 1
        }),
{
    no_echo_is_expected(m, path, kind);
    replicas::minted_version_dominates(m, path);
    replicas::next_version_counts(m, path);
    let v = engine::next_version(m, path);
    assert(engine::step(m, EventModel::Local { path, kind }).0.index[path][0].version == v);
    assert(engine::peer_heads(m.index, path)[i] == m.index[path][i]);
    assert(crate::clock::counts(v).dom().contains(m.replica));
    assert(crate::clock::counts(v)[m.replica] == crate::clock::count(v, m.replica));
}

// ---- what comes from the peer ----------------------------------------------
/// Law: a write is asked for only where it changes something: taking in a version asks
/// for at most one write, at its path, of what the winner says afterwards, and only
/// where the winner said something else before.
pub proof fn no_write_is_needless(m: EngineModel, at: Seq<char>, h: HeadModel, i: int)
    requires
        m.index.dom().contains(at) ==> m.index[at].len() > 0,
        0 <= i < engine::remote_step(m, at, h).1.len(),
        engine::remote_step(m, at, h).1[i] is Apply,
    ensures
        ({
            let (t, acts) = engine::remote_step(m, at, h);
            let after = said_by(index::winner_of(t.index[at]).state);
            let before = if m.index.dom().contains(at) {
                said_by(index::winner_of(m.index[at]).state)
            } else {
                None
            };
            &&& acts[i]->Apply_path == at
            &&& left_by(acts[i]->Apply_target) == after
            &&& !alike(before, after)
            &&& forall|j: int| 0 <= j < acts.len() && (#[trigger] acts[j]) is Apply ==> j == i
        }),
{
    let (t, acts) = engine::remote_step(m, at, h);
    if m.index.dom().contains(at) {
        let after = index::absorbed(m.index[at], h);
        replicas::conflicts_never_apply(at, after, index::winner_of(after), index::adoption(after));
    } else {
        replicas::single_winner(h);
    }
}

/// Two states have the same content: both gone, or files of the same hash and mode.
pub open spec fn same_content(a: EntryState, b: EntryState) -> bool {
    match (a, b) {
        (EntryState::Present(x), EntryState::Present(y)) => x.hash == y.hash && x.exec_bit
            == y.exec_bit,
        (EntryState::Tombstone, EntryState::Tombstone) => true,
        _ => false,
    }
}

/// The largest counter that the heads have for a replica is one of theirs.
proof fn context_comes_from(heads: Seq<HeadModel>, r: u64)
    ensures
        replicas::value_of(index::context(heads), r) == 0 || exists|i: int|
            0 <= i < heads.len() && crate::clock::count((#[trigger] heads[i]).version, r)
                == replicas::value_of(index::context(heads), r),
    decreases heads.len(),
{
    if heads.len() > 0 {
        let front = heads.drop_last();
        let last = crate::clock::counts(heads.last().version);
        context_comes_from(front, r);
        assert(last.dom().contains(r) == crate::clock::mentions(heads.last().version, r));
        assert(crate::clock::count(heads.last().version, r) == replicas::value_of(last, r));
        let all = replicas::value_of(index::context(heads), r);
        let rest = replicas::value_of(index::context(front), r);
        assert(all == crate::clock::larger(rest, replicas::value_of(last, r)));
        if rest != 0 {
            let i = choose|i: int|
                0 <= i < front.len() && crate::clock::count((#[trigger] front[i]).version, r)
                    == rest;
            assert(heads[i] == front[i]);
        }
        assert(heads[heads.len() - 1] == heads.last());
    }
}

/// Law: the version of a local change counts, of every other replica, as much as the head
/// that knows most of it, and no more; at a path that was not known, it counts one local
/// event and nothing else.
pub proof fn a_local_version_counts_what_is_known(
    m: EngineModel,
    path: Seq<char>,
    kind: ChangeKind,
    r: u64,
)
    requires
        no_echo(m, path, kind),
        m.index.dom().contains(path) ==> !alike(
            said_by(index::winner_of(m.index[path]).state),
            seen_of(kind),
        ),
        !m.index.dom().contains(path) ==> kind is Modified,
    ensures
        ({
            let v = engine::step(m, EventModel::Local { path, kind }).0.index[path][0].version;
            &&& m.index.dom().contains(path) && r != m.replica && crate::clock::count(v, r) > 0
                ==> exists|i: int|
                0 <= i < m.index[path].len() && crate::clock::count(
                    (#[trigger] m.index[path][i]).version,
                    r,
                ) == crate::clock::count(v, r)
            &&& !m.index.dom().contains(path) ==> crate::clock::count(v, r) == if r == m.replica {
                1
            } else {
                0int
            }
        }),
{
    no_echo_is_expected(m, path, kind);
    replicas::next_version_counts(m, path);
    let v = engine::next_version(m, path);
    assert(engine::step(m, EventModel::Local { path, kind }).0.index[path][0].version == v);
    let c = crate::clock::counts(v);
    assert(c.dom().contains(r) == crate::clock::mentions(v, r));
    assert(crate::clock::count(v, r) == replicas::value_of(c, r));
    if m.index.dom().contains(path) {
        context_comes_from(m.index[path], r);
    }
}

/// Law: what arrives as a change is taken in as a version: of its path, of what it shows,
/// and of its clock.
pub proof fn a_change_arrives_as_a_version(
    m: EngineModel,
    path: Seq<char>,
    kind: ChangeKind,
    version: Seq<(u64, u64)>,
)
    ensures
        engine::step(m, EventModel::Remote { path, kind, version }) == engine::remote_step(
            m,
            path,
            HeadModel { version, state: state_of(kind) },
        ),
{
}

/// Law: what of a version from the peer is recorded. A version that none of the heads
/// covers is recorded, once and as it came, unless a head already has its content; and
/// one that is covered is not.
pub proof fn new_content_is_recorded_once(m: EngineModel, at: Seq<char>, h: HeadModel)
    ensures
        ({
            let acts = engine::remote_step(m, at, h).1;
            let record = ActionModel::RecordVersion { path: at, state: h.state, version: h.version };
            let heads = engine::peer_heads(m.index, at);
            let due = !index::knows(heads, h.version) && forall|i: int|
                0 <= i < heads.len() ==> !same_content((#[trigger] heads[i]).state, h.state);
            &&& forall|i: int|
                0 <= i < acts.len() && (#[trigger] acts[i]) is RecordVersion ==> due && acts[i]
                    == record && i == acts.len() - 1
            &&& due ==> acts.len() > 0 && acts.last() == record
        }),
{
    let (t, acts) = engine::remote_step(m, at, h);
    let heads = engine::peer_heads(m.index, at);
    if m.index.dom().contains(at) {
        let after = index::absorbed(heads, h);
        let w = index::winner_of(after);
        conflicts_only_report(at, after, w, index::adoption(after));
        assert(forall|i: int|
            0 <= i < heads.len() ==> same_content((#[trigger] heads[i]).state, h.state)
                == index::same_content(heads[i].state, h.state));
    }
}

proof fn conflicts_only_report(
    path: Seq<char>,
    heads: Seq<HeadModel>,
    w: HeadModel,
    adopted: bool,
)
    ensures
        forall|i: int|
            0 <= i < engine::conflict_actions(path, heads, w, adopted).len() ==> (
            #[trigger] engine::conflict_actions(path, heads, w, adopted)[i]) is ConflictResolved,
    decreases heads.len(),
{
    if heads.len() > 0 {
        conflicts_only_report(path, heads.drop_last(), w, adopted);
    }
}

/// The heads come from trees that never met: no two of them count a replica both.
pub open spec fn strangers(heads: Seq<HeadModel>) -> bool {
    heads.len() >= 2 && forall|i: int, j: int, r: u64|
        0 <= i < j < heads.len() ==> !(#[trigger] crate::clock::count(heads[i].version, r) > 0
            && #[trigger] crate::clock::count(heads[j].version, r) > 0)
}

/// The action reports that `l` lost against `w` at `path`, and says whether the trees
/// had never met.
pub open spec fn reports(
    a: ActionModel,
    path: Seq<char>,
    w: HeadModel,
    l: HeadModel,
    met: bool,
) -> bool {
    a == ActionModel::ConflictResolved {
        path,
        winner: w.state,
        winner_version: w.version,
        loser: l.state,
        loser_version: l.version,
        adopted: met,
    }
}

/// The head is not the winner: another clock, or another content.
pub open spec fn lost(l: HeadModel, w: HeadModel) -> bool {
    !(l.version == w.version && alike(said_by(l.state), said_by(w.state)))
}

proof fn a_loser_is_reported(
    path: Seq<char>,
    heads: Seq<HeadModel>,
    w: HeadModel,
    adopted: bool,
    k: int,
) -> (i: int)
    requires
        0 <= k < heads.len(),
        lost(heads[k], w),
    ensures
        0 <= i < engine::conflict_actions(path, heads, w, adopted).len(),
        reports(
            engine::conflict_actions(path, heads, w, adopted)[i],
            path,
            w,
            heads[k],
            adopted,
        ),
    decreases heads.len(),
{
    let front = heads.drop_last();
    let rest = engine::conflict_actions(path, front, w, adopted);
    if k == heads.len() - 1 {
        rest.len() as int
    } else {
        a_loser_is_reported(path, front, w, adopted, k)
    }
}

proof fn a_report_is_of_a_loser(
    path: Seq<char>,
    heads: Seq<HeadModel>,
    w: HeadModel,
    adopted: bool,
    i: int,
) -> (k: int)
    requires
        0 <= i < engine::conflict_actions(path, heads, w, adopted).len(),
    ensures
        0 <= k < heads.len(),
        lost(heads[k], w),
        reports(
            engine::conflict_actions(path, heads, w, adopted)[i],
            path,
            w,
            heads[k],
            adopted,
        ),
    decreases heads.len(),
{
    let front = heads.drop_last();
    let rest = engine::conflict_actions(path, front, w, adopted);
    if i < rest.len() {
        a_report_is_of_a_loser(path, front, w, adopted, i)
    } else {
        heads.len() - 1
    }
}

/// Taking in a version makes a conflict: the path had one head, which does not cover it,
/// and the heads afterwards differ in content.
pub open spec fn conflict_arises(m: EngineModel, at: Seq<char>, h: HeadModel) -> bool {
    let heads = engine::remote_step(m, at, h).0.index[at];
    &&& m.index.dom().contains(at)
    &&& m.index[at].len() == 1
    &&& !index::knows(m.index[at], h.version)
    &&& exists|i: int|
        0 <= i < heads.len() && !same_content((#[trigger] heads[i]).state, heads[0].state)
}

proof fn when_conflicts_arise(m: EngineModel, at: Seq<char>, h: HeadModel)
    requires
        m.index.dom().contains(at),
        !index::knows(m.index[at], h.version),
    ensures
        ({
            let after = index::absorbed(m.index[at], h);
            conflict_arises(m, at, h) <==> (m.index[at].len() == 1 && after.len() >= 2
                && index::conflicted(after))
        }),
{
    let after = index::absorbed(m.index[at], h);
    assert(engine::remote_step(m, at, h).0.index[at] == after);
    if index::conflicted(after) {
        let i = choose|i: int|
            0 <= i < after.len() && !index::same_content(
                (#[trigger] after[i]).state,
                after[0].state,
            );
        assert(!same_content(after[i].state, after[0].state));
    }
    if conflict_arises(m, at, h) {
        let i = choose|i: int|
            0 <= i < after.len() && !same_content((#[trigger] after[i]).state, after[0].state);
        assert(!index::same_content(after[i].state, after[0].state));
        assert(i >= 1);
    }
}

/// Heads of trees that never met are told by their modification times.
pub proof fn strangers_adopt(heads: Seq<HeadModel>)
    ensures
        strangers(heads) == index::adoption(heads),
{
    if index::adoption(heads) {
        assert forall|i: int, j: int, r: u64| 0 <= i < j < heads.len() implies !(
        #[trigger] crate::clock::count(heads[i].version, r) > 0 && #[trigger] crate::clock::count(
            heads[j].version,
            r,
        ) > 0) by {
            assert(index::disjoint(heads[i].version, heads[j].version));
        }
    }
    if strangers(heads) {
        assert forall|i: int, j: int| 0 <= i < j < heads.len() implies index::disjoint(
            (#[trigger] heads[i]).version,
            (#[trigger] heads[j]).version,
        ) by {
            assert forall|r: u64|
                !(#[trigger] crate::clock::count(heads[i].version, r) > 0
                    && #[trigger] crate::clock::count(heads[j].version, r) > 0) by {}
        }
    }
}

/// Law: where taking in a version makes a conflict, every head that is not the winner is
/// reported as a loser against it.
pub proof fn new_conflicts_are_reported(m: EngineModel, at: Seq<char>, h: HeadModel, k: int)
    requires
        conflict_arises(m, at, h),
        0 <= k < engine::remote_step(m, at, h).0.index[at].len(),
    ensures
        ({
            let (t, acts) = engine::remote_step(m, at, h);
            let heads = t.index[at];
            let w = index::winner_of(heads);
            lost(heads[k], w) ==> exists|i: int|
                0 <= i < acts.len() && reports(
                    #[trigger] acts[i],
                    at,
                    w,
                    heads[k],
                    strangers(heads),
                )
        }),
{
    let (t, acts) = engine::remote_step(m, at, h);
    when_conflicts_arise(m, at, h);
    let after = index::absorbed(m.index[at], h);
    let w = index::winner_of(after);
    strangers_adopt(after);
    match index::outcome(m.index[at], h) {
        AbsorbOutcome::AlreadyKnown => {},
        AbsorbOutcome::Absorbed { winner_changed, .. } => {
            if lost(after[k], w) {
                let i = a_loser_is_reported(at, after, w, index::adoption(after), k);
                let a = engine::apply_actions(winner_changed, at, w.state);
                let cs = engine::conflict_actions(at, after, w, index::adoption(after));
                assert(acts[a.len() + i] == cs[i]);
            }
        },
    }
}

/// Law: a conflict is reported only where taking in a version makes one, and only of a
/// head that lost against the winner.
pub proof fn only_new_conflicts_are_reported(m: EngineModel, at: Seq<char>, h: HeadModel, i: int)
    requires
        0 <= i < engine::remote_step(m, at, h).1.len(),
        engine::remote_step(m, at, h).1[i] is ConflictResolved,
    ensures
        conflict_arises(m, at, h),
        ({
            let (t, acts) = engine::remote_step(m, at, h);
            let heads = t.index[at];
            let w = index::winner_of(heads);
            exists|k: int|
                0 <= k < heads.len() && lost(#[trigger] heads[k], w) && reports(
                    acts[i],
                    at,
                    w,
                    heads[k],
                    strangers(heads),
                )
        }),
{
    let (t, acts) = engine::remote_step(m, at, h);
    assert(m.index.dom().contains(at));
    let after = index::absorbed(m.index[at], h);
    let w = index::winner_of(after);
    strangers_adopt(after);
    match index::outcome(m.index[at], h) {
        AbsorbOutcome::AlreadyKnown => {},
        AbsorbOutcome::Absorbed { winner_changed, new_conflict, novel_content } => {
            when_conflicts_arise(m, at, h);
            let a = engine::apply_actions(winner_changed, at, w.state);
            let cs = engine::conflict_actions(at, after, w, index::adoption(after));
            let b = if new_conflict {
                cs
            } else {
                seq![]
            };
            assert(a.len() <= i < a.len() + b.len());
            assert(acts[i] == b[i - a.len()]);
            let k = a_report_is_of_a_loser(at, after, w, index::adoption(after), i - a.len());
            assert(lost(after[k], w));
        },
    }
}

} // verus!
