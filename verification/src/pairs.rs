//! Two replicas that edit on their own and exchange what they send: what each has
//! converges, and no entry ever has more than two heads.

use crate::canonical;
use crate::clock;
use crate::convergence;
use crate::engine;
use crate::engine::{ActionModel, EngineModel, EventModel};
use crate::event::ChangeKind;
use crate::index;
use crate::index::{HeadModel, Index};
use crate::order;
use crate::pathmap;
use crate::replicas;
use vstd::prelude::*;

verus! {

// ---- a pair of replicas ----------------------------------------------------
/// A replica and what is on its way to it.
pub ghost struct Peer {
    /// The engine's state.
    pub engine: EngineModel,
    /// The events that have been sent to it and have not arrived.
    pub inbox: Seq<EventModel>,
}

/// Two replicas.
pub ghost struct Pair {
    /// One replica.
    pub left: Peer,
    /// The other replica.
    pub right: Peer,
}

/// What a replica does.
pub ghost enum Act {
    /// A local change is seen.
    Edit { path: Seq<char>, kind: ChangeKind },
    /// The index is sent to the other replica.
    Offer,
    /// The event at this position of the inbox arrives. Any position may be the
    /// next, so events overtake one another.
    Receive { at: int },
    /// The event at this position arrives, and will arrive again.
    Repeat { at: int },
}

/// The change that a send action ships, as the event that it is for the receiver.
pub open spec fn letter(a: ActionModel) -> EventModel {
    EventModel::Remote { path: a->Send_path, kind: a->Send_kind, version: a->Send_version }
}

/// What the actions ship, in order.
pub open spec fn letters(actions: Seq<ActionModel>) -> Seq<EventModel>
    decreases actions.len(),
{
    if actions.len() == 0 {
        seq![]
    } else if actions.last() is Send {
        letters(actions.drop_last()).push(letter(actions.last()))
    } else {
        letters(actions.drop_last())
    }
}

/// The event that an act is for the replica's own engine, if it is one.
pub open spec fn event_of(me: Peer, act: Act) -> Option<EventModel> {
    match act {
        Act::Edit { path, kind } => Some(EventModel::Local { path, kind }),
        Act::Offer => None,
        Act::Receive { at } => Some(me.inbox[at]),
        Act::Repeat { at } => Some(me.inbox[at]),
    }
}

/// The replica that acts and the other one, after the act. Whatever the engine asks
/// to send is on its way to the other replica.
pub open spec fn acted(me: Peer, other: Peer, act: Act) -> (Peer, Peer) {
    match event_of(me, act) {
        None => (
            me,
            Peer {
                inbox: other.inbox.push(EventModel::PeerIndex { peer: me.engine.index }),
                ..other
            },
        ),
        Some(e) => {
            let s = engine::step(me.engine, e);
            (
                Peer {
                    engine: s.0,
                    inbox: match act {
                        Act::Receive { at } => me.inbox.remove(at),
                        _ => me.inbox,
                    },
                },
                Peer { inbox: other.inbox + letters(s.1), ..other },
            )
        },
    }
}

/// The act can happen: a local change finds room in its counter, and what arrives
/// was on its way.
pub open spec fn possible(me: Peer, act: Act) -> bool {
    match act {
        Act::Edit { path, kind } => engine::is_news(me.engine, path, kind) ==> engine::own_count(
            me.engine,
            path,
        ) < u64::MAX,
        Act::Offer => true,
        Act::Receive { at } => 0 <= at < me.inbox.len(),
        Act::Repeat { at } => 0 <= at < me.inbox.len(),
    }
}

/// An act of one of the two.
pub ghost struct Turn {
    /// Whether it is the left one's.
    pub left: bool,
    /// The act.
    pub act: Act,
}

/// The pair after a turn.
pub open spec fn turned(w: Pair, t: Turn) -> Pair {
    if t.left {
        let s = acted(w.left, w.right, t.act);
        Pair { left: s.0, right: s.1 }
    } else {
        let s = acted(w.right, w.left, t.act);
        Pair { left: s.1, right: s.0 }
    }
}

/// Two replicas that have seen nothing.
pub open spec fn newcomers(l: u64, r: u64) -> Pair {
    Pair {
        left: Peer { engine: replicas::fresh(l), inbox: seq![] },
        right: Peer { engine: replicas::fresh(r), inbox: seq![] },
    }
}

/// Two new replicas after these turns.
pub open spec fn played(l: u64, r: u64, turns: Seq<Turn>) -> Pair
    decreases turns.len(),
{
    if turns.len() == 0 {
        newcomers(l, r)
    } else {
        turned(played(l, r, turns.drop_last()), turns.last())
    }
}

/// Every turn can happen.
pub open spec fn playable(l: u64, r: u64, turns: Seq<Turn>) -> bool
    decreases turns.len(),
{
    if turns.len() == 0 {
        true
    } else {
        let w = played(l, r, turns.drop_last());
        let t = turns.last();
        playable(l, r, turns.drop_last()) && possible(
            if t.left {
                w.left
            } else {
                w.right
            },
            t.act,
        )
    }
}

// ---- what was made and seen of one path ------------------------------------
/// The version that an event brings, and that the replica made itself.
spec fn made_by(m: EngineModel, e: EventModel, p: Seq<char>) -> Seq<HeadModel> {
    if e is Local {
        replicas::brought(m, e, p)
    } else {
        seq![]
    }
}

/// What each of two replicas has seen and made of a path.
ghost struct Trace {
    left_seen: Seq<HeadModel>,
    left_made: Seq<HeadModel>,
    right_seen: Seq<HeadModel>,
    right_made: Seq<HeadModel>,
}

spec fn traced(l: u64, r: u64, turns: Seq<Turn>, p: Seq<char>) -> Trace
    decreases turns.len(),
{
    if turns.len() == 0 {
        Trace { left_seen: seq![], left_made: seq![], right_seen: seq![], right_made: seq![] }
    } else {
        let w = played(l, r, turns.drop_last());
        let t = turns.last();
        let before = traced(l, r, turns.drop_last(), p);
        let me = if t.left {
            w.left
        } else {
            w.right
        };
        match event_of(me, t.act) {
            None => before,
            Some(e) => if t.left {
                Trace {
                    left_seen: before.left_seen + replicas::brought(me.engine, e, p),
                    left_made: before.left_made + made_by(me.engine, e, p),
                    ..before
                }
            } else {
                Trace {
                    right_seen: before.right_seen + replicas::brought(me.engine, e, p),
                    right_made: before.right_made + made_by(me.engine, e, p),
                    ..before
                }
            },
        }
    }
}

/// One of the two made the version.
spec fn known(a: Seq<HeadModel>, b: Seq<HeadModel>, x: HeadModel) -> bool {
    a.contains(x) || b.contains(x)
}

/// The version is on its way.
spec fn posted(inbox: Seq<EventModel>, p: Seq<char>, x: HeadModel) -> bool {
    inbox.contains(
        EventModel::Remote { path: p, kind: engine::state_kind(x.state), version: x.version },
    )
}

/// An event on its way carries, of the path, only versions that one of the two made.
spec fn honest(e: EventModel, p: Seq<char>, a: Seq<HeadModel>, b: Seq<HeadModel>) -> bool {
    match e {
        EventModel::Local { .. } => false,
        EventModel::Remote { path, kind, version } => path == p ==> known(
            a,
            b,
            HeadModel { version, state: engine::kind_state(kind) },
        ),
        EventModel::PeerIndex { peer } => {
            &&& peer.dom().finite()
            &&& engine::inhabited(peer)
            &&& forall|x: HeadModel| #[trigger]
                engine::peer_heads(peer, p).contains(x) ==> known(a, b, x)
        },
    }
}

/// What holds of one replica, at a path: `seen` and `made` are its own, `other_seen`
/// and `other_made` the other one's.
spec fn side_ok(
    me: Peer,
    seen: Seq<HeadModel>,
    made: Seq<HeadModel>,
    other: Peer,
    other_seen: Seq<HeadModel>,
    other_made: Seq<HeadModel>,
    p: Seq<char>,
) -> bool {
    &&& me.engine.index.dom().finite()
    &&& engine::inhabited(me.engine.index)
    &&& engine::peer_heads(me.engine.index, p) == convergence::deliver(seen)
    &&& me.engine.index.dom().contains(p) <==> seen.len() > 0
    &&& forall|x: HeadModel| #[trigger] seen.contains(x) ==> known(made, other_made, x)
    &&& forall|x: HeadModel| #[trigger]
        made.contains(x) ==> seen.contains(x) && (other_seen.contains(x) || posted(
            other.inbox,
            p,
            x,
        ))
    &&& forall|i: int|
        0 <= i < me.inbox.len() ==> honest(#[trigger] me.inbox[i], p, made, other_made)
}

/// The clock lists these two replicas at most.
spec fn only(v: Seq<(u64, u64)>, r: u64, q: u64) -> bool {
    forall|s: u64| #[trigger] clock::mentions(v, s) ==> s == r || s == q
}

/// The versions that replica `r` made, in order: each comes after those before it.
spec fn line(a: Seq<HeadModel>, r: u64, q: u64) -> bool {
    &&& forall|i: int|
        0 <= i < a.len() ==> clock::is_clock((#[trigger] a[i]).version) && only(a[i].version, r, q)
    &&& forall|i: int, j: int|
        0 <= i < j < a.len() ==> clock::leq((#[trigger] a[i]).version, (#[trigger] a[j]).version)
            && clock::count(a[i].version, r) < clock::count(a[j].version, r)
}

/// Some version of `a` has a counter of `r` that is at least `n`.
spec fn reached(a: Seq<HeadModel>, r: u64, n: u64) -> bool {
    exists|i: int| 0 <= i < a.len() && n <= clock::count((#[trigger] a[i]).version, r)
}

/// No version is ahead, in the counter of `r`, of all that `r` made.
spec fn topped(a: Seq<HeadModel>, b: Seq<HeadModel>, r: u64) -> bool {
    forall|x: HeadModel| #[trigger]
        known(a, b, x) && clock::count(x.version, r) > 0 ==> reached(
            a,
            r,
            clock::count(x.version, r),
        )
}

/// No version of one compares equal to a version of the other.
spec fn apart(a: Seq<HeadModel>, b: Seq<HeadModel>) -> bool {
    forall|i: int, j: int|
        0 <= i < a.len() && 0 <= j < b.len() ==> !(clock::leq(
            (#[trigger] a[i]).version,
            (#[trigger] b[j]).version,
        ) && clock::leq(b[j].version, a[i].version))
}

/// What holds of the two replicas, at a path.
spec fn pair_ok(
    me: Peer,
    seen: Seq<HeadModel>,
    made: Seq<HeadModel>,
    other: Peer,
    other_seen: Seq<HeadModel>,
    other_made: Seq<HeadModel>,
    p: Seq<char>,
) -> bool {
    &&& me.engine.replica != other.engine.replica
    &&& side_ok(me, seen, made, other, other_seen, other_made, p)
    &&& side_ok(other, other_seen, other_made, me, seen, made, p)
    &&& line(made, me.engine.replica, other.engine.replica)
    &&& line(other_made, other.engine.replica, me.engine.replica)
    &&& topped(made, other_made, me.engine.replica)
    &&& topped(other_made, made, other.engine.replica)
    &&& apart(made, other_made)
}

proof fn pair_ok_mirrored(
    me: Peer,
    seen: Seq<HeadModel>,
    made: Seq<HeadModel>,
    other: Peer,
    other_seen: Seq<HeadModel>,
    other_made: Seq<HeadModel>,
    p: Seq<char>,
)
    requires
        pair_ok(me, seen, made, other, other_seen, other_made, p),
    ensures
        pair_ok(other, other_seen, other_made, me, seen, made, p),
{
    assert forall|i: int, j: int| 0 <= i < other_made.len() && 0 <= j < made.len() implies !(
    clock::leq((#[trigger] other_made[i]).version, (#[trigger] made[j]).version) && clock::leq(
        made[j].version,
        other_made[i].version,
    )) by {
        assert(!(clock::leq(made[j].version, other_made[i].version) && clock::leq(
            other_made[i].version,
            made[j].version,
        )));
    }
}

// ---- the versions of a pair ------------------------------------------------
proof fn at_most_two(v: Seq<(u64, u64)>, r: u64, q: u64)
    requires
        clock::is_clock(v),
        only(v, r, q),
    ensures
        v.len() <= 2,
{
    if v.len() > 2 {
        clock::count_at(v, 0);
        clock::count_at(v, 1);
        clock::count_at(v, 2);
        assert(v[0].0 < v[1].0 < v[2].0);
    }
}

/// What one replica has seen is consistent.
proof fn seen_is_consistent(
    me: Peer,
    seen: Seq<HeadModel>,
    made: Seq<HeadModel>,
    other: Peer,
    other_seen: Seq<HeadModel>,
    other_made: Seq<HeadModel>,
    p: Seq<char>,
)
    requires
        pair_ok(me, seen, made, other, other_seen, other_made, p),
    ensures
        convergence::consistent(seen),
        convergence::fits(seen),
{
    versions_are_consistent(seen, made, other_made, me.engine.replica, other.engine.replica);
}

/// Versions that two replicas made are consistent.
proof fn versions_are_consistent(
    s: Seq<HeadModel>,
    a: Seq<HeadModel>,
    b: Seq<HeadModel>,
    r: u64,
    q: u64,
)
    requires
        line(a, r, q),
        line(b, q, r),
        apart(a, b),
        forall|x: HeadModel| #[trigger] s.contains(x) ==> known(a, b, x),
    ensures
        convergence::consistent(s),
        convergence::fits(s),
{
    assert forall|i: int, j: int|
        0 <= i < s.len() && 0 <= j < s.len() && clock::leq(
            (#[trigger] s[i]).version,
            (#[trigger] s[j]).version,
        ) && clock::leq(s[j].version, s[i].version) implies s[i] == s[j] by {
        assert(s.contains(s[i]) && s.contains(s[j]));
        same_clock_same_version(a, b, r, q, s[i], s[j]);
    }
    assert forall|i: int| 0 <= i < s.len() implies (#[trigger] s[i]).version.len()
        <= u64::MAX by {
        assert(s.contains(s[i]));
        let x = s[i];
        assert(known(a, b, x));
        if a.contains(x) {
            let k = choose|k: int| 0 <= k < a.len() && a[k] == x;
            at_most_two(a[k].version, r, q);
        } else {
            let k = choose|k: int| 0 <= k < b.len() && b[k] == x;
            at_most_two(b[k].version, q, r);
        }
    }
}

proof fn same_clock_same_version(
    a: Seq<HeadModel>,
    b: Seq<HeadModel>,
    r: u64,
    q: u64,
    x: HeadModel,
    y: HeadModel,
)
    requires
        line(a, r, q),
        line(b, q, r),
        apart(a, b),
        known(a, b, x),
        known(a, b, y),
        clock::leq(x.version, y.version),
        clock::leq(y.version, x.version),
    ensures
        x == y,
{
    assert(clock::count(x.version, r) <= clock::count(y.version, r));
    assert(clock::count(y.version, r) <= clock::count(x.version, r));
    assert(clock::count(x.version, q) <= clock::count(y.version, q));
    assert(clock::count(y.version, q) <= clock::count(x.version, q));
    if a.contains(x) {
        let i = choose|i: int| 0 <= i < a.len() && a[i] == x;
        if a.contains(y) {
            let j = choose|j: int| 0 <= j < a.len() && a[j] == y;
            if i < j {
                assert(clock::count(a[i].version, r) < clock::count(a[j].version, r));
            } else if j < i {
                assert(clock::count(a[j].version, r) < clock::count(a[i].version, r));
            }
        } else {
            let j = choose|j: int| 0 <= j < b.len() && b[j] == y;
            assert(!(clock::leq(a[i].version, b[j].version) && clock::leq(
                b[j].version,
                a[i].version,
            )));
        }
    } else {
        let i = choose|i: int| 0 <= i < b.len() && b[i] == x;
        if a.contains(y) {
            let j = choose|j: int| 0 <= j < a.len() && a[j] == y;
            assert(!(clock::leq(a[j].version, b[i].version) && clock::leq(
                b[i].version,
                a[j].version,
            )));
        } else {
            let j = choose|j: int| 0 <= j < b.len() && b[j] == y;
            if i < j {
                assert(clock::count(b[i].version, q) < clock::count(b[j].version, q));
            } else if j < i {
                assert(clock::count(b[j].version, q) < clock::count(b[i].version, q));
            }
        }
    }
}

// ---- what is sent ----------------------------------------------------------
/// A letter comes from a send action.
proof fn letters_come_from_sends(actions: Seq<ActionModel>, e: EventModel)
    requires
        letters(actions).contains(e),
    ensures
        exists|i: int|
            0 <= i < actions.len() && (#[trigger] actions[i]) is Send && letter(actions[i]) == e,
    decreases actions.len(),
{
    if actions.len() > 0 {
        let rest = actions.drop_last();
        let k = choose|k: int| 0 <= k < letters(actions).len() && letters(actions)[k] == e;
        if actions.last() is Send && k == letters(rest).len() {
            assert(actions[actions.len() - 1] is Send && letter(actions[actions.len() - 1]) == e);
        } else {
            assert(letters(rest)[k] == e);
            letters_come_from_sends(rest, e);
            let i = choose|i: int|
                0 <= i < rest.len() && (#[trigger] rest[i]) is Send && letter(rest[i]) == e;
            assert(actions[i] == rest[i]);
        }
    }
}

proof fn remote_steps_never_send(m: EngineModel, path: Seq<char>, hs: Seq<HeadModel>)
    ensures
        forall|i: int|
            0 <= i < engine::remote_steps(m, path, hs).1.len() ==> !((
            #[trigger] engine::remote_steps(m, path, hs).1[i]) is Send),
    decreases hs.len(),
{
    if hs.len() > 0 {
        remote_steps_never_send(m, path, hs.drop_last());
        let before = engine::remote_steps(m, path, hs.drop_last());
        replicas::remote_never_sends(before.0, path, hs.last());
    }
}

/// What a send action ships.
spec fn ships(a: ActionModel) -> HeadModel {
    HeadModel { version: a->Send_version, state: engine::kind_state(a->Send_kind) }
}

/// Reconciling sends only heads that the replica has afterwards.
proof fn reconciling_sends_heads(
    m: EngineModel,
    peer: Map<Seq<char>, Seq<HeadModel>>,
    ps: Seq<Seq<char>>,
    i: int,
)
    requires
        engine::ascending_paths(ps),
        0 <= i < engine::path_steps(m, peer, ps).1.len(),
        engine::path_steps(m, peer, ps).1[i] is Send,
    ensures
        ({
            let s = engine::path_steps(m, peer, ps);
            &&& ps.contains(s.1[i]->Send_path)
            &&& engine::peer_heads(s.0.index, s.1[i]->Send_path).contains(ships(s.1[i]))
        }),
    decreases ps.len(),
{
    let all = engine::path_steps(m, peer, ps);
    if ps.len() > 0 {
        let before = ps.drop_last();
        let q = ps.last();
        assert(engine::ascending_paths(before)) by {
            assert forall|x: int, y: int| 0 <= x < y < before.len() implies order::text_lt(
                #[trigger] before[x],
                #[trigger] before[y],
            ) by {
                assert(before[x] == ps[x] && before[y] == ps[y]);
            }
        }
        let done = engine::path_steps(m, peer, before);
        let theirs = engine::peer_heads(peer, q);
        let took = engine::remote_steps(done.0, q, theirs);
        replicas::remote_steps_index(done.0, q, theirs);
        if i < done.1.len() {
            assert(all.1[i] == done.1[i]);
            reconciling_sends_heads(m, peer, before, i);
            let at = done.1[i]->Send_path;
            let k = choose|k: int| 0 <= k < before.len() && before[k] == at;
            assert(ps[k] == at);
            assert(order::text_lt(ps[k], ps[ps.len() - 1]));
            order::text_order(q, q, q);
            assert(at != q);
            assert(engine::peer_heads(all.0.index, at) == engine::peer_heads(done.0.index, at));
        } else {
            let j = i - done.1.len();
            let step = engine::path_step(done.0, peer, q);
            assert(all.1[i] == step.1[j]);
            remote_steps_never_send(done.0, q, theirs);
            assert(j >= took.1.len());
            let hs = took.0.index[q];
            let n = j - took.1.len();
            replicas::sends_ship_what_is_lacking(q, hs, theirs);
            assert(step.1[j] == engine::send_actions(q, hs, theirs)[n]);
            let h = replicas::lacking(hs, theirs)[n];
            assert(replicas::lacking(hs, theirs).contains(h));
            replicas::lacking_elements(hs, theirs, h);
            assert(ships(step.1[j]) == h);
            assert(ps[ps.len() - 1] == q);
        }
    }
}

/// The event can be handled.
spec fn sound(m: EngineModel, e: EventModel) -> bool {
    match e {
        EventModel::Local { path, kind } => engine::is_news(m, path, kind) ==> engine::own_count(
            m,
            path,
        ) < u64::MAX,
        EventModel::Remote { .. } => true,
        EventModel::PeerIndex { peer } => peer.dom().finite() && engine::inhabited(peer),
    }
}

/// What an event makes a replica send, of a path, is a version that the event made,
/// or a head that the replica has afterwards.
proof fn letters_are_heads(m: EngineModel, e: EventModel, l: EventModel, p: Seq<char>)
    requires
        m.index.dom().finite(),
        sound(m, e),
        letters(engine::step(m, e).1).contains(l),
    ensures
        l is Remote,
        l->Remote_path == p ==> ({
            let x = HeadModel {
                version: l->Remote_version,
                state: engine::kind_state(l->Remote_kind),
            };
            made_by(m, e, p).contains(x) || engine::peer_heads(
                engine::step(m, e).0.index,
                p,
            ).contains(x)
        }),
{
    let acts = engine::step(m, e).1;
    letters_come_from_sends(acts, l);
    let i = choose|i: int| 0 <= i < acts.len() && (#[trigger] acts[i]) is Send && letter(acts[i])
        == l;
    match e {
        EventModel::Local { path, kind } => {
            assert(engine::is_news(m, path, kind));
            assert(i == 0);
            assert(made_by(m, e, path)[0] == ships(acts[0]));
        },
        EventModel::Remote { path, kind, version } => {
            replicas::remote_never_sends(
                m,
                path,
                HeadModel { version, state: engine::kind_state(kind) },
            );
        },
        EventModel::PeerIndex { peer } => {
            let dom = m.index.dom().union(peer.dom());
            replicas::in_order_exists(dom);
            reconciling_sends_heads(m, peer, engine::in_order(dom), i);
        },
    }
}

/// A local change that makes a version ships it.
proof fn what_is_made_is_sent(m: EngineModel, path: Seq<char>, kind: ChangeKind)
    requires
        engine::is_news(m, path, kind),
    ensures
        letters(engine::local_step(m, path, kind).1) == seq![
            EventModel::Remote { path, kind, version: engine::next_version(m, path) },
        ],
{
    let acts = engine::local_step(m, path, kind).1;
    let one = acts.drop_last();
    assert(one.drop_last() =~= Seq::<ActionModel>::empty());
    assert(letters(one.drop_last()) =~= Seq::<EventModel>::empty());
    assert(acts.last() is RecordVersion);
    assert(one.last() is Send);
    assert(letters(one) == letters(one.drop_last()).push(letter(one.last())));
    assert(letters(acts) == letters(one));
    assert(letters(acts) =~= seq![
        EventModel::Remote { path, kind, version: engine::next_version(m, path) },
    ]);
}

proof fn absorbing_leaves_a_head(heads: Seq<HeadModel>, hs: Seq<HeadModel>)
    requires
        heads.len() > 0 || hs.len() > 0,
    ensures
        replicas::absorb_all(heads, hs).len() > 0,
    decreases hs.len(),
{
    if hs.len() > 0 {
        let before = replicas::absorb_all(heads, hs.drop_last());
        convergence::absorb_idempotent(before, hs.last());
    }
}

proof fn step_stays_inhabited(m: EngineModel, e: EventModel)
    requires
        m.index.dom().finite(),
        engine::inhabited(m.index),
        sound(m, e),
    ensures
        engine::inhabited(engine::step(m, e).0.index),
{
    let after = engine::step(m, e).0.index;
    assert forall|q: Seq<char>| #[trigger] after.dom().contains(q) implies after[q].len() > 0 by {
        replicas::step_absorbs(m, e, q);
        let heads = engine::peer_heads(m.index, q);
        if m.index.dom().contains(q) {
            assert(heads.len() > 0);
        }
        absorbing_leaves_a_head(heads, replicas::brought(m, e, q));
    }
}

// ---- a version that is made ------------------------------------------------
/// A counter of the context is the counter of one of the heads.
proof fn context_comes_from_a_head(heads: Seq<HeadModel>, s: u64)
    requires
        index::context(heads).dom().contains(s),
    ensures
        exists|i: int|
            0 <= i < heads.len() && clock::mentions((#[trigger] heads[i]).version, s)
                && index::context(heads)[s] <= clock::count(heads[i].version, s),
    decreases heads.len(),
{
    let rest = index::context(heads.drop_last());
    let last = clock::counts(heads.last().version);
    let n = heads.len() - 1;
    if last.dom().contains(s) && index::context(heads)[s] <= last[s] {
        assert(clock::mentions(heads[n].version, s));
        assert(index::context(heads)[s] <= clock::count(heads[n].version, s));
    } else {
        assert(rest.dom().contains(s));
        context_comes_from_a_head(heads.drop_last(), s);
        let i = choose|i: int|
            0 <= i < heads.drop_last().len() && clock::mentions(
                (#[trigger] heads.drop_last()[i]).version,
                s,
            ) && rest[s] <= clock::count(heads.drop_last()[i].version, s);
        assert(heads[i] == heads.drop_last()[i]);
        assert(clock::mentions(heads[i].version, s));
    }
}

/// The version of a local edit comes after everything that the replica has seen of
/// the path, is ahead of it in the replica's own counter, and takes every other
/// counter from something seen.
proof fn a_made_version_tops(m: EngineModel, p: Seq<char>, seen: Seq<HeadModel>)
    requires
        engine::own_count(m, p) < u64::MAX,
        engine::peer_heads(m.index, p) == convergence::deliver(seen),
        convergence::consistent(seen),
        convergence::fits(seen),
    ensures
        ({
            let v = engine::next_version(m, p);
            &&& clock::is_clock(v)
            &&& clock::count(v, m.replica) > 0
            &&& forall|x: HeadModel| #[trigger]
                seen.contains(x) ==> clock::leq(x.version, v) && clock::count(x.version, m.replica)
                    < clock::count(v, m.replica)
            &&& forall|s: u64| #[trigger]
                clock::mentions(v, s) && s != m.replica ==> exists|x: HeadModel| #[trigger]
                    seen.contains(x) && clock::mentions(x.version, s) && clock::count(v, s)
                        <= clock::count(x.version, s)
        }),
{
    let v = engine::next_version(m, p);
    let heads = engine::peer_heads(m.index, p);
    let ctx = engine::context_at(m, p);
    replicas::next_version_counts(m, p);
    replicas::minted_version_dominates(m, p);
    convergence::heads_are_the_maximal_versions(seen);
    assert(clock::counts(v).dom().contains(m.replica));
    assert(clock::counts(v)[m.replica] == clock::count(v, m.replica));
    assert forall|x: HeadModel| #[trigger] seen.contains(x) implies clock::leq(x.version, v)
        && clock::count(x.version, m.replica) < clock::count(v, m.replica) by {
        let i = choose|i: int| 0 <= i < seen.len() && seen[i] == x;
        assert(index::knows(heads, seen[i].version));
        let k = choose|k: int|
            0 <= k < heads.len() && clock::leq(x.version, (#[trigger] heads[k]).version);
        assert(clock::before(heads[k].version, v));
        clock::leq_transitive(x.version, heads[k].version, v);
        assert(m.index.dom().contains(p));
        replicas::context_covers(heads, k);
        assert(clock::count(heads[k].version, m.replica) <= replicas::value_of(ctx, m.replica));
        assert(clock::count(x.version, m.replica) <= clock::count(heads[k].version, m.replica));
    }
    assert forall|s: u64| #[trigger]
        clock::mentions(v, s) && s != m.replica implies exists|x: HeadModel| #[trigger]
        seen.contains(x) && clock::mentions(x.version, s) && clock::count(v, s) <= clock::count(
        x.version,
        s,
    ) by {
        assert(clock::counts(v).dom().contains(s));
        assert(ctx.dom().contains(s));
        assert(clock::counts(v)[s] == ctx[s]);
        assert(m.index.dom().contains(p));
        context_comes_from_a_head(heads, s);
        let i = choose|i: int|
            0 <= i < heads.len() && clock::mentions((#[trigger] heads[i]).version, s)
                && index::context(heads)[s] <= clock::count(heads[i].version, s);
        assert(heads.contains(heads[i]));
        assert(convergence::maximal(seen, heads[i]));
        assert(seen.contains(heads[i]));
    }
}

/// A version that `me` makes fits in with those that were made before.
proof fn lines_grow(
    me: Peer,
    seen: Seq<HeadModel>,
    made: Seq<HeadModel>,
    other: Peer,
    other_seen: Seq<HeadModel>,
    other_made: Seq<HeadModel>,
    e: EventModel,
    p: Seq<char>,
)
    requires
        pair_ok(me, seen, made, other, other_seen, other_made, p),
        sound(me.engine, e),
    ensures
        ({
            let more = made + made_by(me.engine, e, p);
            &&& line(more, me.engine.replica, other.engine.replica)
            &&& topped(more, other_made, me.engine.replica)
            &&& topped(other_made, more, other.engine.replica)
            &&& apart(more, other_made)
        }),
{
    let r = me.engine.replica;
    let q = other.engine.replica;
    let k = made_by(me.engine, e, p);
    let more = made + k;
    if k.len() == 0 {
        assert(more =~= made);
    } else {
        let h = k[0];
        let v = h.version;
        assert(more =~= made.push(h));
        seen_is_consistent(me, seen, made, other, other_seen, other_made, p);
        a_made_version_tops(me.engine, p, seen);
        assert(v == engine::next_version(me.engine, p));
        let n = made.len() as int;
        assert(more[n] == h);
        assert(more.contains(h));
        // The clock lists the two replicas at most.
        assert(only(v, r, q)) by {
            assert forall|s: u64| #[trigger] clock::mentions(v, s) implies s == r || s == q by {
                if s != r {
                    let x = choose|x: HeadModel| #[trigger]
                        seen.contains(x) && clock::mentions(x.version, s) && clock::count(v, s)
                            <= clock::count(x.version, s);
                    assert(known(made, other_made, x));
                    made_versions_list_two(made, other_made, r, q, x);
                }
            }
        }
        assert forall|i: int, j: int| 0 <= i < j < more.len() implies clock::leq(
            (#[trigger] more[i]).version,
            (#[trigger] more[j]).version,
        ) && clock::count(more[i].version, r) < clock::count(more[j].version, r) by {
            assert(more[i] == made[i]);
            if j < n {
                assert(more[j] == made[j]);
            } else {
                assert(made.contains(made[i]));
                assert(seen.contains(made[i]));
            }
        }
        assert forall|i: int| 0 <= i < more.len() implies clock::is_clock(
            (#[trigger] more[i]).version,
        ) && only(more[i].version, r, q) by {
            if i < n {
                assert(more[i] == made[i]);
            }
        }
        // Nothing is ahead of it in the counter of its maker.
        assert(topped(more, other_made, r)) by {
            assert forall|x: HeadModel| #[trigger]
                known(more, other_made, x) && clock::count(x.version, r) > 0 implies reached(
                more,
                r,
                clock::count(x.version, r),
            ) by {
                if x == h {
                    assert(clock::count(x.version, r) <= clock::count(more[n].version, r));
                } else {
                    replicas::concat_elements(made, k, x);
                    assert(known(made, other_made, x)) by {
                        if k.contains(x) {
                            let z = choose|z: int| 0 <= z < k.len() && k[z] == x;
                            assert(k.len() == 1);
                        }
                    }
                    assert(reached(made, r, clock::count(x.version, r)));
                    let i = choose|i: int|
                        0 <= i < made.len() && clock::count(x.version, r) <= clock::count(
                            (#[trigger] made[i]).version,
                            r,
                        );
                    assert(more[i] == made[i]);
                }
            }
        }
        // It takes the other counter from something that was there.
        assert(topped(other_made, more, q)) by {
            assert forall|x: HeadModel| #[trigger]
                known(other_made, more, x) && clock::count(x.version, q) > 0 implies reached(
                other_made,
                q,
                clock::count(x.version, q),
            ) by {
                if x == h {
                    assert(clock::mentions(v, q));
                    let y = choose|y: HeadModel| #[trigger]
                        seen.contains(y) && clock::mentions(y.version, q) && clock::count(v, q)
                            <= clock::count(y.version, q);
                    assert(known(made, other_made, y));
                    assert(known(other_made, made, y));
                    assert(reached(other_made, q, clock::count(y.version, q)));
                    let i = choose|i: int|
                        0 <= i < other_made.len() && clock::count(y.version, q) <= clock::count(
                            (#[trigger] other_made[i]).version,
                            q,
                        );
                    assert(clock::count(x.version, q) <= clock::count(other_made[i].version, q));
                } else {
                    replicas::concat_elements(made, k, x);
                    assert(known(other_made, made, x)) by {
                        if k.contains(x) {
                            let z = choose|z: int| 0 <= z < k.len() && k[z] == x;
                            assert(k.len() == 1);
                        }
                    }
                }
            }
        }
        // It compares equal to nothing that the other one made.
        assert forall|i: int, j: int| 0 <= i < more.len() && 0 <= j < other_made.len() implies !(
        clock::leq((#[trigger] more[i]).version, (#[trigger] other_made[j]).version) && clock::leq(
            other_made[j].version,
            more[i].version,
        )) by {
            if i < n {
                assert(more[i] == made[i]);
            } else {
                let y = other_made[j];
                assert(other_made.contains(y));
                assert(known(made, other_made, y));
                assert(clock::count(v, r) > clock::count(y.version, r)) by {
                    if clock::count(y.version, r) > 0 {
                        assert(reached(made, r, clock::count(y.version, r)));
                        let z = choose|z: int|
                            0 <= z < made.len() && clock::count(y.version, r) <= clock::count(
                                (#[trigger] made[z]).version,
                                r,
                            );
                        assert(made.contains(made[z]));
                        assert(seen.contains(made[z]));
                    }
                }
            }
        }
    }
}

proof fn made_versions_list_two(
    a: Seq<HeadModel>,
    b: Seq<HeadModel>,
    r: u64,
    q: u64,
    x: HeadModel,
)
    requires
        line(a, r, q),
        line(b, q, r),
        known(a, b, x),
    ensures
        clock::is_clock(x.version),
        only(x.version, r, q),
{
    if a.contains(x) {
        let i = choose|i: int| 0 <= i < a.len() && a[i] == x;
        assert(only(a[i].version, r, q));
    } else {
        let i = choose|i: int| 0 <= i < b.len() && b[i] == x;
        assert(only(b[i].version, q, r));
        assert forall|s: u64| #[trigger] clock::mentions(x.version, s) implies s == r || s
            == q by {}
    }
}

/// An event stays honest as more versions are made.
proof fn honest_grows(
    e: EventModel,
    p: Seq<char>,
    a: Seq<HeadModel>,
    more: Seq<HeadModel>,
    b: Seq<HeadModel>,
)
    requires
        honest(e, p, a, b) || honest(e, p, b, a),
    ensures
        honest(e, p, a + more, b),
        honest(e, p, b, a + more),
{
    assert forall|x: HeadModel| a.contains(x) implies (a + more).contains(x) by {
        replicas::concat_elements(a, more, x);
    }
    match e {
        EventModel::PeerIndex { peer } => {
            assert forall|x: HeadModel| #[trigger]
                engine::peer_heads(peer, p).contains(x) implies known(a + more, b, x) && known(
                b,
                a + more,
                x,
            ) by {
                assert(known(a, b, x) || known(b, a, x));
            }
        },
        _ => {},
    }
}

/// What an event brings was made by one of the two.
proof fn brought_is_known(
    m: EngineModel,
    e: EventModel,
    p: Seq<char>,
    made: Seq<HeadModel>,
    other_made: Seq<HeadModel>,
    x: HeadModel,
)
    requires
        e is Local || honest(e, p, made, other_made),
        replicas::brought(m, e, p).contains(x),
    ensures
        known(made + made_by(m, e, p), other_made, x),
{
    replicas::concat_elements(made, made_by(m, e, p), x);
    let n = replicas::brought(m, e, p);
    let i = choose|i: int| 0 <= i < n.len() && n[i] == x;
    match e {
        EventModel::Local { .. } => {},
        EventModel::Remote { path, kind, version } => {
            assert(i == 0);
        },
        EventModel::PeerIndex { peer } => {},
    }
}

proof fn step_keeps_the_replica(m: EngineModel, e: EventModel)
    requires
        m.index.dom().finite(),
        sound(m, e),
    ensures
        engine::step(m, e).0.replica == m.replica,
{
    match e {
        EventModel::PeerIndex { peer } => {
            let dom = m.index.dom().union(peer.dom());
            replicas::in_order_exists(dom);
            replicas::path_steps_index(m, peer, engine::in_order(dom), seq![]);
        },
        _ => {},
    }
}

/// Handling an event keeps what holds of the two. The event leaves the inbox, or
/// stays in it to arrive again.
proof fn an_event_keeps_ok(
    me: Peer,
    seen: Seq<HeadModel>,
    made: Seq<HeadModel>,
    other: Peer,
    other_seen: Seq<HeadModel>,
    other_made: Seq<HeadModel>,
    e: EventModel,
    inbox: Seq<EventModel>,
    p: Seq<char>,
)
    requires
        pair_ok(me, seen, made, other, other_seen, other_made, p),
        sound(me.engine, e),
        e is Local || honest(e, p, made, other_made),
        forall|l: EventModel| #[trigger] inbox.contains(l) ==> me.inbox.contains(l),
        forall|l: EventModel| #[trigger]
            me.inbox.contains(l) ==> inbox.contains(l) || (l == e && !(e is Local)),
    ensures
        ({
            let s = engine::step(me.engine, e);
            pair_ok(
                Peer { engine: s.0, inbox },
                seen + replicas::brought(me.engine, e, p),
                made + made_by(me.engine, e, p),
                Peer { inbox: other.inbox + letters(s.1), ..other },
                other_seen,
                other_made,
                p,
            )
        }),
{
    let m = me.engine;
    let s = engine::step(m, e);
    let n = replicas::brought(m, e, p);
    let k = made_by(m, e, p);
    let seen2 = seen + n;
    let made2 = made + k;
    let me2 = Peer { engine: s.0, inbox };
    let other2 = Peer { inbox: other.inbox + letters(s.1), ..other };
    let r = m.replica;
    let q = other.engine.replica;
    step_keeps_the_replica(m, e);
    replicas::step_absorbs(m, e, p);
    replicas::step_stays_finite(m, e);
    step_stays_inhabited(m, e);
    replicas::absorb_all_delivers(seen, n);
    lines_grow(me, seen, made, other, other_seen, other_made, e, p);
    assert forall|x: HeadModel| #[trigger] seen2.contains(x) implies known(
        made2,
        other_made,
        x,
    ) by {
        replicas::concat_elements(seen, n, x);
        replicas::concat_elements(made, k, x);
        if seen.contains(x) {
            assert(known(made, other_made, x));
        } else {
            brought_is_known(m, e, p, made, other_made, x);
        }
    }
    assert forall|x: HeadModel| #[trigger] made2.contains(x) implies seen2.contains(x) && (
    other_seen.contains(x) || posted(other2.inbox, p, x)) by {
        replicas::concat_elements(seen, n, x);
        replicas::concat_elements(made, k, x);
        let l = EventModel::Remote {
            path: p,
            kind: engine::state_kind(x.state),
            version: x.version,
        };
        if made.contains(x) {
            if posted(other.inbox, p, x) {
                let i = choose|i: int| 0 <= i < other.inbox.len() && other.inbox[i] == l;
                assert(other2.inbox[i] == l);
            }
        } else {
            let z = choose|z: int| 0 <= z < k.len() && k[z] == x;
            what_is_made_is_sent(m, e->Local_path, e->Local_kind);
            assert(letters(s.1)[0] == l);
            assert(other2.inbox[other.inbox.len() as int] == l);
        }
    }
    assert forall|i: int| 0 <= i < inbox.len() implies honest(
        #[trigger] inbox[i],
        p,
        made2,
        other_made,
    ) by {
        assert(inbox.contains(inbox[i]));
        let j = choose|j: int| 0 <= j < me.inbox.len() && me.inbox[j] == inbox[i];
        assert(honest(me.inbox[j], p, made, other_made));
        honest_grows(inbox[i], p, made, k, other_made);
    }
    assert(side_ok(me2, seen2, made2, other2, other_seen, other_made, p));
    // The other one.
    assert forall|x: HeadModel| #[trigger] other_seen.contains(x) implies known(
        other_made,
        made2,
        x,
    ) by {
        assert(known(other_made, made, x));
        replicas::concat_elements(made, k, x);
    }
    assert forall|x: HeadModel| #[trigger] other_made.contains(x) implies other_seen.contains(x)
        && (seen2.contains(x) || posted(inbox, p, x)) by {
        replicas::concat_elements(seen, n, x);
        let l = EventModel::Remote {
            path: p,
            kind: engine::state_kind(x.state),
            version: x.version,
        };
        if !seen.contains(x) {
            assert(me.inbox.contains(l));
            if !inbox.contains(l) {
                assert(e == l);
                assert(n[0] == x);
            }
        }
    }
    versions_are_consistent(seen2, made2, other_made, r, q);
    convergence::heads_are_the_maximal_versions(seen2);
    assert forall|i: int| 0 <= i < other2.inbox.len() implies honest(
        #[trigger] other2.inbox[i],
        p,
        other_made,
        made2,
    ) by {
        let l = other2.inbox[i];
        if i < other.inbox.len() {
            assert(l == other.inbox[i]);
            assert(honest(other.inbox[i], p, other_made, made));
            honest_grows(l, p, made, k, other_made);
        } else {
            assert(l == letters(s.1)[i - other.inbox.len()]);
            assert(letters(s.1).contains(l));
            letters_are_heads(m, e, l, p);
            if l->Remote_path == p {
                let x = HeadModel {
                    version: l->Remote_version,
                    state: engine::kind_state(l->Remote_kind),
                };
                replicas::concat_elements(made, k, x);
                if !k.contains(x) {
                    assert(convergence::deliver(seen2).contains(x));
                    assert(convergence::maximal(seen2, x));
                    assert(seen2.contains(x));
                }
            }
        }
    }
    assert(side_ok(other2, other_seen, other_made, me2, seen2, made2, p));
}

/// Sending the index keeps what holds of the two.
proof fn an_offer_keeps_ok(
    me: Peer,
    seen: Seq<HeadModel>,
    made: Seq<HeadModel>,
    other: Peer,
    other_seen: Seq<HeadModel>,
    other_made: Seq<HeadModel>,
    p: Seq<char>,
)
    requires
        pair_ok(me, seen, made, other, other_seen, other_made, p),
    ensures
        pair_ok(
            me,
            seen,
            made,
            Peer {
                inbox: other.inbox.push(EventModel::PeerIndex { peer: me.engine.index }),
                ..other
            },
            other_seen,
            other_made,
            p,
        ),
{
    let l = EventModel::PeerIndex { peer: me.engine.index };
    let other2 = Peer { inbox: other.inbox.push(l), ..other };
    seen_is_consistent(me, seen, made, other, other_seen, other_made, p);
    convergence::heads_are_the_maximal_versions(seen);
    assert forall|x: HeadModel| #[trigger] made.contains(x) implies seen.contains(x) && (
    other_seen.contains(x) || posted(other2.inbox, p, x)) by {
        if posted(other.inbox, p, x) {
            let y = EventModel::Remote {
                path: p,
                kind: engine::state_kind(x.state),
                version: x.version,
            };
            let i = choose|i: int| 0 <= i < other.inbox.len() && other.inbox[i] == y;
            assert(other2.inbox[i] == y);
        }
    }
    assert forall|i: int| 0 <= i < other2.inbox.len() implies honest(
        #[trigger] other2.inbox[i],
        p,
        other_made,
        made,
    ) by {
        if i < other.inbox.len() {
            assert(other2.inbox[i] == other.inbox[i]);
        } else {
            assert forall|x: HeadModel| #[trigger]
                engine::peer_heads(me.engine.index, p).contains(x) implies known(
                other_made,
                made,
                x,
            ) by {
                assert(convergence::maximal(seen, x));
                assert(seen.contains(x));
                assert(known(made, other_made, x));
            }
        }
    }
    assert(side_ok(me, seen, made, other2, other_seen, other_made, p));
    assert(side_ok(other2, other_seen, other_made, me, seen, made, p));
}

/// An act keeps what holds of the two.
proof fn an_act_keeps_ok(
    me: Peer,
    seen: Seq<HeadModel>,
    made: Seq<HeadModel>,
    other: Peer,
    other_seen: Seq<HeadModel>,
    other_made: Seq<HeadModel>,
    act: Act,
    p: Seq<char>,
)
    requires
        pair_ok(me, seen, made, other, other_seen, other_made, p),
        possible(me, act),
    ensures
        ({
            let s = acted(me, other, act);
            match event_of(me, act) {
                None => pair_ok(s.0, seen, made, s.1, other_seen, other_made, p),
                Some(e) => pair_ok(
                    s.0,
                    seen + replicas::brought(me.engine, e, p),
                    made + made_by(me.engine, e, p),
                    s.1,
                    other_seen,
                    other_made,
                    p,
                ),
            }
        }),
{
    match act {
        Act::Edit { path, kind } => {
            an_event_keeps_ok(
                me,
                seen,
                made,
                other,
                other_seen,
                other_made,
                EventModel::Local { path, kind },
                me.inbox,
                p,
            );
        },
        Act::Offer => {
            an_offer_keeps_ok(me, seen, made, other, other_seen, other_made, p);
        },
        Act::Receive { at } => {
            let e = me.inbox[at];
            let inbox = me.inbox.remove(at);
            assert(honest(me.inbox[at], p, made, other_made));
            assert forall|l: EventModel| #[trigger] inbox.contains(l) implies me.inbox.contains(
                l,
            ) by {
                let i = choose|i: int| 0 <= i < inbox.len() && inbox[i] == l;
                assert(l == me.inbox[if i < at { i } else { i + 1 }]);
            }
            assert forall|l: EventModel| #[trigger] me.inbox.contains(l) implies inbox.contains(l)
                || (l == e && !(e is Local)) by {
                let i = choose|i: int| 0 <= i < me.inbox.len() && me.inbox[i] == l;
                if i < at {
                    assert(inbox[i] == l);
                } else if i > at {
                    assert(inbox[i - 1] == l);
                }
            }
            an_event_keeps_ok(me, seen, made, other, other_seen, other_made, e, inbox, p);
        },
        Act::Repeat { at } => {
            let e = me.inbox[at];
            assert(honest(me.inbox[at], p, made, other_made));
            an_event_keeps_ok(me, seen, made, other, other_seen, other_made, e, me.inbox, p);
        },
    }
}

/// What holds of two replicas holds of them after any turns.
proof fn turns_keep_ok(l: u64, r: u64, turns: Seq<Turn>, p: Seq<char>)
    requires
        l != r,
        playable(l, r, turns),
    ensures
        ({
            let w = played(l, r, turns);
            let t = traced(l, r, turns, p);
            pair_ok(
                w.left,
                t.left_seen,
                t.left_made,
                w.right,
                t.right_seen,
                t.right_made,
                p,
            )
        }),
    decreases turns.len(),
{
    if turns.len() == 0 {
        assert(convergence::deliver(Seq::<HeadModel>::empty()) =~= Seq::<HeadModel>::empty());
        assert(Map::<Seq<char>, Seq<HeadModel>>::empty().dom().finite());
        let w = played(l, r, turns);
        let none = Seq::<HeadModel>::empty();
        assert(side_ok(w.left, none, none, w.right, none, none, p));
        assert(side_ok(w.right, none, none, w.left, none, none, p));
    } else {
        turns_keep_ok(l, r, turns.drop_last(), p);
        let w = played(l, r, turns.drop_last());
        let t = traced(l, r, turns.drop_last(), p);
        let turn = turns.last();
        if turn.left {
            an_act_keeps_ok(
                w.left,
                t.left_seen,
                t.left_made,
                w.right,
                t.right_seen,
                t.right_made,
                turn.act,
                p,
            );
        } else {
            pair_ok_mirrored(
                w.left,
                t.left_seen,
                t.left_made,
                w.right,
                t.right_seen,
                t.right_made,
                p,
            );
            an_act_keeps_ok(
                w.right,
                t.right_seen,
                t.right_made,
                w.left,
                t.left_seen,
                t.left_made,
                turn.act,
                p,
            );
            let s = turned(w, turn);
            let u = traced(l, r, turns, p);
            pair_ok_mirrored(
                s.right,
                u.right_seen,
                u.right_made,
                s.left,
                u.left_seen,
                u.left_made,
                p,
            );
        }
    }
}

// ---- the laws --------------------------------------------------------------
/// Law: an entry of either of two replicas is, at any time, a non-empty set of
/// pairwise concurrent heads in canonical order, and has at most two heads.
pub proof fn an_entry_has_at_most_two_heads(l: u64, r: u64, turns: Seq<Turn>, p: Seq<char>)
    requires
        l != r,
        playable(l, r, turns),
    ensures
        ({
            let w = played(l, r, turns);
            &&& w.left.engine.index.dom().contains(p) ==> convergence::canonical(
                w.left.engine.index[p],
            ) && w.left.engine.index[p].len() <= 2
            &&& w.right.engine.index.dom().contains(p) ==> convergence::canonical(
                w.right.engine.index[p],
            ) && w.right.engine.index[p].len() <= 2
        }),
{
    turns_keep_ok(l, r, turns, p);
    let w = played(l, r, turns);
    let t = traced(l, r, turns, p);
    bounded_at(w.left, t.left_seen, t.left_made, w.right, t.right_seen, t.right_made, p);
    pair_ok_mirrored(w.left, t.left_seen, t.left_made, w.right, t.right_seen, t.right_made, p);
    bounded_at(w.right, t.right_seen, t.right_made, w.left, t.left_seen, t.left_made, p);
}

proof fn bounded_at(
    me: Peer,
    seen: Seq<HeadModel>,
    made: Seq<HeadModel>,
    other: Peer,
    other_seen: Seq<HeadModel>,
    other_made: Seq<HeadModel>,
    p: Seq<char>,
)
    requires
        pair_ok(me, seen, made, other, other_seen, other_made, p),
    ensures
        me.engine.index.dom().contains(p) ==> convergence::canonical(me.engine.index[p])
            && me.engine.index[p].len() <= 2,
{
    if me.engine.index.dom().contains(p) {
        let s = me.engine.index[p];
        seen_is_consistent(me, seen, made, other, other_seen, other_made, p);
        convergence::heads_are_the_maximal_versions(seen);
        convergence::delivered_is_canonical(seen);
        let source = |x: HeadModel| if made.contains(x) {
            0u64
        } else {
            1u64
        };
        let sources = set![0u64, 1u64];
        assert forall|i: int, j: int|
            0 <= i < s.len() && 0 <= j < s.len() && source(#[trigger] s[i]) == source(
                #[trigger] s[j],
            ) implies clock::leq(s[i].version, s[j].version) || clock::leq(
            s[j].version,
            s[i].version,
        ) by {
            assert(s.contains(s[i]) && s.contains(s[j]));
            assert(convergence::maximal(seen, s[i]) && convergence::maximal(seen, s[j]));
            assert(seen.contains(s[i]) && seen.contains(s[j]));
            assert(known(made, other_made, s[i]) && known(made, other_made, s[j]));
            if made.contains(s[i]) {
                one_line_is_ordered(
                    made,
                    me.engine.replica,
                    other.engine.replica,
                    s[i],
                    s[j],
                );
            } else {
                one_line_is_ordered(
                    other_made,
                    other.engine.replica,
                    me.engine.replica,
                    s[i],
                    s[j],
                );
            }
        }
        convergence::heads_are_bounded(s, source, sources);
        assert(sources.len() == 2) by {
            assert(set![0u64].len() == 1);
            assert(!set![0u64].contains(1u64));
        }
    }
}

proof fn one_line_is_ordered(a: Seq<HeadModel>, r: u64, q: u64, x: HeadModel, y: HeadModel)
    requires
        line(a, r, q),
        a.contains(x),
        a.contains(y),
    ensures
        clock::leq(x.version, y.version) || clock::leq(y.version, x.version),
{
    let i = choose|i: int| 0 <= i < a.len() && a[i] == x;
    let j = choose|j: int| 0 <= j < a.len() && a[j] == y;
    if i < j {
        assert(clock::leq(a[i].version, a[j].version));
    } else if j < i {
        assert(clock::leq(a[j].version, a[i].version));
    } else {
        clock::leq_reflexive(x.version);
    }
}

proof fn quiet_replicas_agree_at(l: u64, r: u64, turns: Seq<Turn>, p: Seq<char>)
    requires
        l != r,
        playable(l, r, turns),
        played(l, r, turns).left.inbox.len() == 0,
        played(l, r, turns).right.inbox.len() == 0,
    ensures
        ({
            let x = played(l, r, turns).left.engine.index;
            let y = played(l, r, turns).right.engine.index;
            x.dom().contains(p) == y.dom().contains(p) && (x.dom().contains(p) ==> x[p] == y[p])
        }),
{
    turns_keep_ok(l, r, turns, p);
    let w = played(l, r, turns);
    let t = traced(l, r, turns, p);
    let a = t.left_seen;
    let b = t.right_seen;
    seen_is_consistent(w.left, a, t.left_made, w.right, b, t.right_made, p);
    assert forall|x: HeadModel| #[trigger] a.contains(x) <==> b.contains(x) by {
        assert(!posted(w.left.inbox, p, x));
        assert(!posted(w.right.inbox, p, x));
        if a.contains(x) {
            assert(known(t.left_made, t.right_made, x));
            assert(t.left_made.contains(x) ==> b.contains(x));
            assert(t.right_made.contains(x) ==> b.contains(x));
        }
        if b.contains(x) {
            assert(known(t.right_made, t.left_made, x));
            assert(t.left_made.contains(x) ==> a.contains(x));
            assert(t.right_made.contains(x) ==> a.contains(x));
        }
    }
    convergence::deliveries_converge(a, b);
    if a.len() > 0 {
        assert(a.contains(a[0]));
        assert(b.contains(a[0]));
    }
    if b.len() > 0 {
        assert(b.contains(b[0]));
        assert(a.contains(b[0]));
    }
}

/// Law: two replicas converge. However they edit, offer their indices and take in
/// what the other one sent, in any order and with any repetitions: once nothing is
/// on its way any more, they have the same index.
pub proof fn quiet_replicas_agree(l: u64, r: u64, turns: Seq<Turn>)
    requires
        l != r,
        playable(l, r, turns),
        played(l, r, turns).left.inbox.len() == 0,
        played(l, r, turns).right.inbox.len() == 0,
    ensures
        played(l, r, turns).left.engine.index == played(l, r, turns).right.engine.index,
{
    let x = played(l, r, turns).left.engine.index;
    let y = played(l, r, turns).right.engine.index;
    assert forall|p: Seq<char>| x.dom().contains(p) == y.dom().contains(p) by {
        quiet_replicas_agree_at(l, r, turns, p);
    }
    assert(x.dom() =~= y.dom());
    assert forall|p: Seq<char>| x.dom().contains(p) implies x[p] == y[p] by {
        quiet_replicas_agree_at(l, r, turns, p);
    }
    assert(x =~= y);
}

/// Law: two replicas between which nothing is on its way have the same canonical
/// bytes, and materialise the same winner at every path.
pub proof fn quiet_replicas_look_alike(l: u64, r: u64, turns: Seq<Turn>, a: Index, b: Index)
    requires
        l != r,
        playable(l, r, turns),
        played(l, r, turns).left.inbox.len() == 0,
        played(l, r, turns).right.inbox.len() == 0,
        a@ == played(l, r, turns).left.engine.index,
        b@ == played(l, r, turns).right.engine.index,
        pathmap::sorted(a.listing()),
        pathmap::sorted(b.listing()),
    ensures
        index::index_bytes(a.listing()) == index::index_bytes(b.listing()),
        forall|p: Seq<char>| #[trigger]
            a@.dom().contains(p) ==> b@.dom().contains(p) && index::winner_of(a@[p])
                == index::winner_of(b@[p]),
{
    quiet_replicas_agree(l, r, turns);
    canonical::canonical_bytes_deterministic(a, b);
}

} // verus!
