//! Laws of the echo journal: every write that the engine asks for is expected once,
//! and each expected local event is swallowed once.

use crate::engine;
use crate::engine::{ActionModel, EngineModel, EventModel, Expectation};
use crate::event::ChangeKind;
use crate::index;
use crate::index::HeadModel;
use crate::replicas;
use vstd::prelude::*;

verus! {

/// How many of the expectations match.
pub open spec fn matches_in(list: Seq<Expectation>, e: Expectation) -> nat
    decreases list.len(),
{
    if list.len() == 0 {
        0
    } else {
        matches_in(list.drop_last(), e) + (if engine::matching(list.last(), e) {
            1nat
        } else {
            0
        })
    }
}

/// How many matching writes at `path` are outstanding.
pub open spec fn outstanding(
    echo: Map<Seq<char>, Seq<Expectation>>,
    path: Seq<char>,
    e: Expectation,
) -> nat {
    matches_in(engine::pending(echo, path), e)
}

/// What a local change of this kind shows of the tree.
pub open spec fn shown(kind: ChangeKind) -> Expectation {
    engine::state_target(engine::kind_state(kind))
}

proof fn matches_after_update(list: Seq<Expectation>, k: int, x: Expectation, e: Expectation)
    requires
        0 <= k < list.len(),
    ensures
        matches_in(list.update(k, x), e) + (if engine::matching(list[k], e) {
            1nat
        } else {
            0
        }) == matches_in(list, e) + (if engine::matching(x, e) {
            1nat
        } else {
            0
        }),
    decreases list.len(),
{
    let u = list.update(k, x);
    if k == list.len() - 1 {
        assert(u.drop_last() =~= list.drop_last());
    } else {
        matches_after_update(list.drop_last(), k, x, e);
        assert(u.drop_last() =~= list.drop_last().update(k, x));
    }
}

proof fn some_match(list: Seq<Expectation>, e: Expectation)
    ensures
        matches_in(list, e) > 0 <==> engine::first_match(list, e, 0) < list.len(),
    decreases list.len(),
{
    engine::first_match_spec(list, e, 0);
    if list.len() > 0 {
        let p = list.drop_last();
        some_match(p, e);
        engine::first_match_spec(p, e, 0);
        let k = engine::first_match(list, e, 0);
        let j = engine::first_match(p, e, 0);
        if j < p.len() {
            assert(list[j] == p[j]);
        } else if k < list.len() - 1 {
            assert(p[k] == list[k]);
        }
        if engine::matching(list.last(), e) {
            assert(list[list.len() - 1] == list.last());
        }
    }
}

/// Law: the local event that shows an outstanding write is swallowed: it yields no
/// action and leaves the index alone. It settles exactly one of the outstanding
/// writes that it matches, and no other.
pub proof fn an_echo_settles_one_write(m: EngineModel, path: Seq<char>, kind: ChangeKind)
    requires
        outstanding(m.echo, path, shown(kind)) > 0,
    ensures
        ({
            let after = engine::local_step(m, path, kind);
            &&& after.1 == Seq::<ActionModel>::empty()
            &&& after.0.index == m.index
            &&& after.0.replica == m.replica
            &&& outstanding(after.0.echo, path, shown(kind)) == outstanding(
                m.echo,
                path,
                shown(kind),
            ) - 1
            &&& forall|q: Seq<char>, f: Expectation|
                !(q == path && engine::matching(shown(kind), f)) ==> #[trigger] outstanding(
                    after.0.echo,
                    q,
                    f,
                ) == outstanding(m.echo, q, f)
        }),
{
    let e = shown(kind);
    let list = engine::pending(m.echo, path);
    some_match(list, e);
    let k = engine::first_match(list, e, 0);
    engine::first_match_spec(list, e, 0);
    let rest = list.update(k, list.last()).drop_last();
    let echo = engine::retired(m.echo, path, e);
    assert(engine::pending(echo, path) =~= rest);
    assert forall|f: Expectation|
        matches_in(rest, f) == matches_in(list, f) - (if engine::matching(list[k], f) {
            1int
        } else {
            0
        }) by {
        let u = list.update(k, list.last());
        matches_after_update(list, k, list.last(), f);
        assert(u.last() == list.last());
        assert(matches_in(u, f) == matches_in(rest, f) + (if engine::matching(u.last(), f) {
            1nat
        } else {
            0
        }));
    }
    assert forall|q: Seq<char>, f: Expectation|
        !(q == path && engine::matching(e, f)) implies #[trigger] outstanding(echo, q, f)
        == outstanding(m.echo, q, f) by {
        if q != path {
            assert(engine::pending(echo, q) == engine::pending(m.echo, q));
        } else {
            assert(!engine::matching(list[k], f));
        }
    }
    assert(engine::local_step(m, path, kind).1 =~= Seq::<ActionModel>::empty());
}

/// A local event that matches no outstanding write is no echo: the journal stays as it
/// is.
pub proof fn nothing_outstanding(m: EngineModel, path: Seq<char>, kind: ChangeKind)
    requires
        outstanding(m.echo, path, shown(kind)) == 0,
    ensures
        !engine::expects(m.echo, path, shown(kind)),
        engine::local_step(m, path, kind).0.echo == m.echo,
{
    some_match(engine::pending(m.echo, path), shown(kind));
}

/// The same local event, `n` times.
pub open spec fn repeated(path: Seq<char>, kind: ChangeKind, n: nat) -> Seq<EventModel> {
    Seq::new(n, |i: int| EventModel::Local { path, kind })
}

/// Law: `n` outstanding copies of a write swallow `n` matching local events: none of
/// them yields an action or touches the index, and no copy is left.
pub proof fn copies_swallow_as_many_events(
    m: EngineModel,
    path: Seq<char>,
    kind: ChangeKind,
    n: nat,
)
    requires
        n <= outstanding(m.echo, path, shown(kind)),
    ensures
        ({
            let after = replicas::run(m, repeated(path, kind, n));
            &&& after.index == m.index
            &&& outstanding(after.echo, path, shown(kind)) == outstanding(
                m.echo,
                path,
                shown(kind),
            ) - n
            &&& n < outstanding(m.echo, path, shown(kind)) ==> engine::step(
                after,
                EventModel::Local { path, kind },
            ).1 == Seq::<ActionModel>::empty()
        }),
    decreases n,
{
    let es = repeated(path, kind, n);
    if n > 0 {
        copies_swallow_as_many_events(m, path, kind, (n - 1) as nat);
        assert(es.drop_last() =~= repeated(path, kind, (n - 1) as nat));
        let before = replicas::run(m, es.drop_last());
        an_echo_settles_one_write(before, path, kind);
    }
    if n < outstanding(m.echo, path, shown(kind)) {
        an_echo_settles_one_write(replicas::run(m, es), path, kind);
    }
}

// ---- writes that are asked for ---------------------------------------------
/// How many of the actions ask for a matching write at `path`.
pub open spec fn writes_in(actions: Seq<ActionModel>, path: Seq<char>, e: Expectation) -> nat
    decreases actions.len(),
{
    if actions.len() == 0 {
        0
    } else {
        writes_in(actions.drop_last(), path, e) + (match actions.last() {
            ActionModel::Apply { path: q, target } => if q == path && engine::matching(target, e) {
                1nat
            } else {
                0
            },
            _ => 0,
        })
    }
}

proof fn writes_add_up(a: Seq<ActionModel>, b: Seq<ActionModel>, path: Seq<char>, e: Expectation)
    ensures
        writes_in(a + b, path, e) == writes_in(a, path, e) + writes_in(b, path, e),
    decreases b.len(),
{
    if b.len() == 0 {
        assert(a + b =~= a);
    } else {
        assert((a + b).drop_last() =~= a + b.drop_last());
        writes_add_up(a, b.drop_last(), path, e);
    }
}

proof fn no_writes(actions: Seq<ActionModel>, path: Seq<char>, e: Expectation)
    requires
        forall|i: int| 0 <= i < actions.len() ==> !((#[trigger] actions[i]) is Apply),
    ensures
        writes_in(actions, path, e) == 0,
    decreases actions.len(),
{
    if actions.len() > 0 {
        let p = actions.drop_last();
        assert forall|i: int| 0 <= i < p.len() implies !((#[trigger] p[i]) is Apply) by {
            assert(p[i] == actions[i]);
        }
        no_writes(p, path, e);
        assert(actions[actions.len() - 1] == actions.last());
    }
}

proof fn applying_expects(
    due: bool,
    echo: Map<Seq<char>, Seq<Expectation>>,
    at: Seq<char>,
    state: index::EntryState,
    path: Seq<char>,
    e: Expectation,
)
    ensures
        outstanding(engine::apply_echo(due, echo, at, state), path, e) == outstanding(echo, path, e)
            + writes_in(engine::apply_actions(due, at, state), path, e),
{
    let target = engine::state_target(state);
    let acts = engine::apply_actions(due, at, state);
    if due {
        assert(acts.drop_last() =~= Seq::<ActionModel>::empty());
        let list = engine::pending(echo, at);
        let j = engine::apply_echo(due, echo, at, state);
        assert(list.push(target).drop_last() =~= list);
        assert(acts.last() == (ActionModel::Apply { path: at, target }));
        assert(writes_in(acts.drop_last(), path, e) == 0);
        if path == at {
            assert(engine::pending(j, path) == list.push(target));
        } else {
            assert(engine::pending(j, path) == engine::pending(echo, path));
        }
    } else {
        assert(acts =~= Seq::<ActionModel>::empty());
    }
}

proof fn remote_step_expects(
    m: EngineModel,
    at: Seq<char>,
    h: HeadModel,
    path: Seq<char>,
    e: Expectation,
)
    ensures
        outstanding(engine::remote_step(m, at, h).0.echo, path, e) == outstanding(m.echo, path, e)
            + writes_in(engine::remote_step(m, at, h).1, path, e),
{
    if !m.index.dom().contains(at) {
        let due = h.state is Present;
        applying_expects(due, m.echo, at, h.state, path, e);
        let a = engine::apply_actions(due, at, h.state);
        let b = engine::record_actions(true, at, h);
        no_writes(b, path, e);
        writes_add_up(a, b, path, e);
    } else {
        let heads = m.index[at];
        let after = index::absorbed(heads, h);
        let w = index::winner_of(after);
        match index::outcome(heads, h) {
            index::AbsorbOutcome::AlreadyKnown => {},
            index::AbsorbOutcome::Absorbed { winner_changed, new_conflict, novel_content } => {
                applying_expects(winner_changed, m.echo, at, w.state, path, e);
                let a = engine::apply_actions(winner_changed, at, w.state);
                let b = if new_conflict {
                    engine::conflict_actions(at, after, w, index::adoption(after))
                } else {
                    seq![]
                };
                let c = engine::record_actions(novel_content, at, h);
                replicas::conflicts_never_apply(at, after, w, index::adoption(after));
                no_writes(b, path, e);
                no_writes(c, path, e);
                writes_add_up(a, b, path, e);
                writes_add_up(a + b, c, path, e);
            },
        }
    }
}

proof fn remote_steps_expect(
    m: EngineModel,
    at: Seq<char>,
    hs: Seq<HeadModel>,
    path: Seq<char>,
    e: Expectation,
)
    ensures
        outstanding(engine::remote_steps(m, at, hs).0.echo, path, e) == outstanding(m.echo, path, e)
            + writes_in(engine::remote_steps(m, at, hs).1, path, e),
    decreases hs.len(),
{
    if hs.len() > 0 {
        remote_steps_expect(m, at, hs.drop_last(), path, e);
        let before = engine::remote_steps(m, at, hs.drop_last());
        remote_step_expects(before.0, at, hs.last(), path, e);
        writes_add_up(before.1, engine::remote_step(before.0, at, hs.last()).1, path, e);
    }
}

proof fn sends_write_nothing(
    at: Seq<char>,
    heads: Seq<HeadModel>,
    peer: Seq<HeadModel>,
    path: Seq<char>,
    e: Expectation,
)
    ensures
        writes_in(engine::send_actions(at, heads, peer), path, e) == 0,
    decreases heads.len(),
{
    if heads.len() > 0 {
        sends_write_nothing(at, heads.drop_last(), peer, path, e);
        let rest = engine::send_actions(at, heads.drop_last(), peer);
        let h = heads.last();
        let send = ActionModel::Send {
            path: at,
            kind: engine::state_kind(h.state),
            version: h.version,
        };
        assert(rest.push(send).drop_last() =~= rest);
    }
}

proof fn path_steps_expect(
    m: EngineModel,
    peer: Map<Seq<char>, Seq<HeadModel>>,
    ps: Seq<Seq<char>>,
    path: Seq<char>,
    e: Expectation,
)
    ensures
        outstanding(engine::path_steps(m, peer, ps).0.echo, path, e) == outstanding(
            m.echo,
            path,
            e,
        ) + writes_in(engine::path_steps(m, peer, ps).1, path, e),
    decreases ps.len(),
{
    if ps.len() > 0 {
        path_steps_expect(m, peer, ps.drop_last(), path, e);
        let before = engine::path_steps(m, peer, ps.drop_last());
        let at = ps.last();
        let theirs = engine::peer_heads(peer, at);
        remote_steps_expect(before.0, at, theirs, path, e);
        let took = engine::remote_steps(before.0, at, theirs);
        let sends = if took.0.index.dom().contains(at) {
            engine::send_actions(at, took.0.index[at], theirs)
        } else {
            seq![]
        };
        if took.0.index.dom().contains(at) {
            sends_write_nothing(at, took.0.index[at], theirs, path, e);
        }
        writes_add_up(took.1, sends, path, e);
        writes_add_up(before.1, took.1 + sends, path, e);
    }
}

/// Law: every write that is asked for is expected, once for each time it is asked
/// for, and nothing else is: what comes from the peer adds to the outstanding writes
/// exactly those that its actions ask for.
pub proof fn every_write_is_expected(
    m: EngineModel,
    event: EventModel,
    path: Seq<char>,
    e: Expectation,
)
    requires
        !(event is Local),
    ensures
        outstanding(engine::step(m, event).0.echo, path, e) == outstanding(m.echo, path, e)
            + writes_in(engine::step(m, event).1, path, e),
{
    match event {
        EventModel::Local { .. } => {},
        EventModel::Remote { path: at, kind, version } => {
            remote_step_expects(
                m,
                at,
                HeadModel { version, state: engine::kind_state(kind) },
                path,
                e,
            );
        },
        EventModel::PeerIndex { peer } => {
            path_steps_expect(
                m,
                peer,
                engine::in_order(m.index.dom().union(peer.dom())),
                path,
                e,
            );
        },
    }
}

} // verus!
