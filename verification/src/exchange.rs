//! Laws of what the engine does with what comes from the peer, path by path: what it
//! takes in, and what it ships.

use crate::clock;
use crate::convergence;
use crate::engine;
use crate::engine::{ActionModel, EngineModel, EventModel};
use crate::event::ChangeKind;
use crate::index;
use crate::index::HeadModel;
use crate::replicas;
use crate::tree;
use vstd::prelude::*;

verus! {

/// One of the heads has seen all that the clock has seen.
pub open spec fn covered(heads: Seq<HeadModel>, version: Seq<(u64, u64)>) -> bool {
    exists|i: int|
        0 <= i < heads.len() && forall|r: u64| #[trigger]
            clock::count(version, r) <= clock::count((#[trigger] heads[i]).version, r)
}

proof fn covered_is_known(heads: Seq<HeadModel>, version: Seq<(u64, u64)>)
    ensures
        covered(heads, version) == index::knows(heads, version),
{
    if covered(heads, version) {
        let i = choose|i: int|
            0 <= i < heads.len() && forall|r: u64| #[trigger]
                clock::count(version, r) <= clock::count((#[trigger] heads[i]).version, r);
        assert(clock::leq(version, heads[i].version));
    }
    if index::knows(heads, version) {
        let i = choose|i: int|
            0 <= i < heads.len() && clock::leq(version, (#[trigger] heads[i]).version);
        assert(forall|r: u64| #[trigger]
            clock::count(version, r) <= clock::count(heads[i].version, r));
    }
}

/// Law: what becomes of a version that arrives. Where a head of its path covers it,
/// nothing happens. Else it is a head of the path from then on, those heads that it has
/// seen are gone, and those that it has not seen stay. Other paths stay as they are.
pub proof fn a_version_is_taken_in(
    m: EngineModel,
    path: Seq<char>,
    kind: ChangeKind,
    version: Seq<(u64, u64)>,
)
    ensures
        ({
            let (t, acts) = engine::step(m, EventModel::Remote { path, kind, version });
            let had = engine::peer_heads(m.index, path);
            let h = HeadModel { version, state: tree::state_of(kind) };
            &&& covered(had, version) ==> t == m && acts == Seq::<ActionModel>::empty()
            &&& !covered(had, version) ==> t.index.dom().contains(path) && forall|x: HeadModel|
                #[trigger] t.index[path].contains(x) <==> (x == h || (had.contains(x)
                    && !clock::before(x.version, version)))
            &&& t.index.remove(path) == m.index.remove(path)
            &&& t.replica == m.replica
        }),
{
    let (t, acts) = engine::step(m, EventModel::Remote { path, kind, version });
    let had = engine::peer_heads(m.index, path);
    let h = HeadModel { version, state: tree::state_of(kind) };
    covered_is_known(had, version);
    convergence::absorbed_is_exactly(had, h);
    if m.index.dom().contains(path) {
        assert(t.index.remove(path) =~= m.index.remove(path));
        if index::knows(had, version) {
            assert(acts =~= Seq::<ActionModel>::empty());
        }
    } else {
        assert(t.index.remove(path) =~= m.index.remove(path));
        assert(seq![h][0] == h);
    }
}

// ---- what is shipped -------------------------------------------------------
/// The changes of path `p` that the actions ship, in order.
pub open spec fn sends_of(acts: Seq<ActionModel>, p: Seq<char>) -> Seq<ActionModel>
    decreases acts.len(),
{
    if acts.len() == 0 {
        seq![]
    } else {
        let rest = sends_of(acts.drop_last(), p);
        match acts.last() {
            ActionModel::Send { path, .. } => if path == p {
                rest.push(acts.last())
            } else {
                rest
            },
            _ => rest,
        }
    }
}

proof fn sends_of_both(a: Seq<ActionModel>, b: Seq<ActionModel>, p: Seq<char>)
    ensures
        sends_of(a + b, p) == sends_of(a, p) + sends_of(b, p),
    decreases b.len(),
{
    if b.len() == 0 {
        assert(a + b =~= a);
        assert(sends_of(a, p) + sends_of(b, p) =~= sends_of(a, p));
    } else {
        assert((a + b).drop_last() =~= a + b.drop_last());
        sends_of_both(a, b.drop_last(), p);
        assert(sends_of(a + b, p) =~= sends_of(a, p) + sends_of(b, p));
    }
}

proof fn no_sends(acts: Seq<ActionModel>, p: Seq<char>)
    requires
        forall|i: int| 0 <= i < acts.len() ==> !((#[trigger] acts[i]) is Send),
    ensures
        sends_of(acts, p) == Seq::<ActionModel>::empty(),
    decreases acts.len(),
{
    if acts.len() > 0 {
        let front = acts.drop_last();
        assert forall|i: int| 0 <= i < front.len() implies !((#[trigger] front[i]) is Send) by {
            assert(front[i] == acts[i]);
        }
        no_sends(front, p);
        assert(acts[acts.len() - 1] == acts.last());
    }
}

proof fn remotes_send_nothing(m: EngineModel, at: Seq<char>, hs: Seq<HeadModel>, p: Seq<char>)
    ensures
        sends_of(engine::remote_steps(m, at, hs).1, p) == Seq::<ActionModel>::empty(),
    decreases hs.len(),
{
    if hs.len() > 0 {
        let done = engine::remote_steps(m, at, hs.drop_last());
        remotes_send_nothing(m, at, hs.drop_last(), p);
        replicas::remote_never_sends(done.0, at, hs.last());
        let next = engine::remote_step(done.0, at, hs.last());
        no_sends(next.1, p);
        sends_of_both(done.1, next.1, p);
    }
}

/// The change that ships a head: its path, its state as a change, and its clock.
pub open spec fn shipment(p: Seq<char>, h: HeadModel) -> ActionModel {
    ActionModel::Send {
        path: p,
        kind: match h.state {
            index::EntryState::Present(sig) => ChangeKind::Modified(sig),
            index::EntryState::Tombstone => ChangeKind::Removed,
        },
        version: h.version,
    }
}

proof fn sends_are_shipments(
    at: Seq<char>,
    heads: Seq<HeadModel>,
    peer: Seq<HeadModel>,
    p: Seq<char>,
)
    ensures
        sends_of(engine::send_actions(at, heads, peer), p) == if at == p {
            heads.filter(|h: HeadModel| !covered(peer, h.version)).map_values(
                |h: HeadModel| shipment(p, h),
            )
        } else {
            Seq::<ActionModel>::empty()
        },
    decreases heads.len(),
{
    reveal(Seq::filter);
    let want = |h: HeadModel| !covered(peer, h.version);
    let ship = |h: HeadModel| shipment(p, h);
    if heads.len() == 0 {
        assert(heads.filter(want).map_values(ship) =~= Seq::<ActionModel>::empty());
    } else {
        let front = heads.drop_last();
        let h = heads.last();
        sends_are_shipments(at, front, peer, p);
        covered_is_known(peer, h.version);
        let rest = engine::send_actions(at, front, peer);
        let send = ActionModel::Send {
            path: at,
            kind: engine::state_kind(h.state),
            version: h.version,
        };
        assert(rest.push(send).drop_last() =~= rest);
        assert(sends_of(rest.push(send), p) == if at == p {
            sends_of(rest, p).push(send)
        } else {
            sends_of(rest, p)
        });
        if want(h) {
            assert(heads.filter(want) == front.filter(want).push(h));
            assert(front.filter(want).push(h).map_values(ship) =~= front.filter(want).map_values(
                ship,
            ).push(shipment(p, h)));
        } else {
            assert(heads.filter(want) == front.filter(want));
        }
    }
}

proof fn sends_of_paths(
    m: EngineModel,
    peer: Map<Seq<char>, Seq<HeadModel>>,
    ps: Seq<Seq<char>>,
    p: Seq<char>,
)
    requires
        engine::ascending_paths(ps),
    ensures
        ({
            let (t, acts) = engine::path_steps(m, peer, ps);
            let theirs = engine::peer_heads(peer, p);
            sends_of(acts, p) == if ps.contains(p) {
                engine::peer_heads(t.index, p).filter(
                    |h: HeadModel| !covered(theirs, h.version),
                ).map_values(|h: HeadModel| shipment(p, h))
            } else {
                Seq::<ActionModel>::empty()
            }
        }),
    decreases ps.len(),
{
    reveal(Seq::filter);
    let theirs = engine::peer_heads(peer, p);
    let want = |h: HeadModel| !covered(theirs, h.version);
    let ship = |h: HeadModel| shipment(p, h);
    if ps.len() > 0 {
        let front = ps.drop_last();
        let at = ps.last();
        assert(ps[ps.len() - 1] == at);
        assert(engine::ascending_paths(front)) by {
            assert forall|i: int, j: int| 0 <= i < j < front.len() implies crate::order::text_lt(
                #[trigger] front[i],
                #[trigger] front[j],
            ) by {
                assert(front[i] == ps[i] && front[j] == ps[j]);
            }
        }
        sends_of_paths(m, peer, front, p);
        let done = engine::path_steps(m, peer, front);
        let others = engine::peer_heads(peer, at);
        let took = engine::remote_steps(done.0, at, others);
        replicas::remote_steps_index(done.0, at, others);
        remotes_send_nothing(done.0, at, others, p);
        let sends = if took.0.index.dom().contains(at) {
            engine::send_actions(at, took.0.index[at], others)
        } else {
            seq![]
        };
        sends_of_both(took.1, sends, p);
        sends_of_both(done.1, took.1 + sends, p);
        if took.0.index.dom().contains(at) {
            sends_are_shipments(at, took.0.index[at], others, p);
        }
        if at == p {
            assert(!front.contains(p)) by {
                if front.contains(p) {
                    let k = front.index_of(p);
                    assert(crate::order::text_lt(ps[k], ps[ps.len() - 1]));
                    crate::order::text_order(p, p, p);
                }
            }
            assert(ps.contains(p));
            if !took.0.index.dom().contains(at) {
                let none = Seq::<HeadModel>::empty();
                assert(engine::peer_heads(took.0.index, p) =~= none);
                assert(none.filter(want) =~= none);
                assert(none.map_values(ship) =~= Seq::<ActionModel>::empty());
            }
            assert(sends_of(engine::path_steps(m, peer, ps).1, p)
                =~= engine::peer_heads(took.0.index, p).filter(want).map_values(ship));
        } else {
            assert(ps.contains(p) == front.contains(p)) by {
                if ps.contains(p) {
                    let k = ps.index_of(p);
                    assert(front[k] == p);
                }
                if front.contains(p) {
                    let k = front.index_of(p);
                    assert(ps[k] == p);
                }
            }
            assert(engine::peer_heads(took.0.index, p) == engine::peer_heads(done.0.index, p));
            assert(sends_of(engine::path_steps(m, peer, ps).1, p) =~= sends_of(done.1, p));
        }
    }
}

/// Law: what reconciling ships. At every path, it ships exactly those heads that the
/// engine has afterwards and that no head of the peer covers, in their order: each once,
/// as it is.
pub proof fn reconciling_ships_what_the_peer_lacks(
    m: EngineModel,
    peer: Map<Seq<char>, Seq<HeadModel>>,
    p: Seq<char>,
)
    requires
        m.index.dom().finite(),
        peer.dom().finite(),
    ensures
        ({
            let (t, acts) = engine::step(m, EventModel::PeerIndex { peer });
            let theirs = engine::peer_heads(peer, p);
            sends_of(acts, p) == engine::peer_heads(t.index, p).filter(
                |h: HeadModel| !covered(theirs, h.version),
            ).map_values(|h: HeadModel| shipment(p, h))
        }),
{
    reveal(Seq::filter);
    let dom = m.index.dom().union(peer.dom());
    replicas::in_order_exists(dom);
    let ps = engine::in_order(dom);
    sends_of_paths(m, peer, ps, p);
    replicas::path_steps_index(m, peer, ps, p);
    assert(ps.contains(p) == ps.to_set().contains(p));
    if !ps.contains(p) {
        let theirs = engine::peer_heads(peer, p);
        let want = |h: HeadModel| !covered(theirs, h.version);
        let ship = |h: HeadModel| shipment(p, h);
        let none = Seq::<HeadModel>::empty();
        let t = engine::step(m, EventModel::PeerIndex { peer }).0;
        assert(engine::peer_heads(t.index, p) =~= none);
        assert(none.filter(want) =~= none);
        assert(none.map_values(ship) =~= Seq::<ActionModel>::empty());
    }
}

} // verus!
