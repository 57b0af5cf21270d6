//! Laws of the engine: silence, echoes, and the convergence of replicas.

use crate::clock;
use crate::convergence;
use crate::engine;
use crate::engine::{ActionModel, EngineModel, EventModel, Expectation};
use crate::event::ChangeKind;
use crate::index;
use crate::index::HeadModel;
use crate::order;
use vstd::prelude::*;

verus! {

/// Law: taking in a version from the peer never asks for a send.
pub proof fn remote_never_sends(m: EngineModel, path: Seq<char>, h: HeadModel)
    ensures
        forall|i: int|
            0 <= i < engine::remote_step(m, path, h).1.len() ==> !((
            #[trigger] engine::remote_step(m, path, h).1[i]) is Send),
{
    if m.index.dom().contains(path) {
        let after = index::absorbed(m.index[path], h);
        conflicts_never_send(path, after, index::winner_of(after), index::adoption(after));
    }
}

proof fn conflicts_never_send(
    path: Seq<char>,
    heads: Seq<HeadModel>,
    w: HeadModel,
    adopted: bool,
)
    ensures
        forall|i: int|
            0 <= i < engine::conflict_actions(path, heads, w, adopted).len() ==> !((
            #[trigger] engine::conflict_actions(path, heads, w, adopted)[i]) is Send),
    decreases heads.len(),
{
    if heads.len() > 0 {
        conflicts_never_send(path, heads.drop_last(), w, adopted);
    }
}

/// Law: a version that arrives again is ignored.
pub proof fn redelivery_is_silent(m: EngineModel, path: Seq<char>, h: HeadModel)
    ensures
        engine::remote_step(engine::remote_step(m, path, h).0, path, h) == (
            engine::remote_step(m, path, h).0,
            Seq::<ActionModel>::empty(),
        ),
{
    let m1 = engine::remote_step(m, path, h).0;
    if m.index.dom().contains(path) {
        convergence::absorb_idempotent(m.index[path], h);
    } else {
        clock::leq_reflexive(h.version);
        assert(m1.index[path][0] == h);
        assert(index::knows(m1.index[path], h.version));
    }
    assert(engine::remote_step(m1, path, h).1 =~= Seq::<ActionModel>::empty());
}

/// The local change that the watcher reports for a write.
pub open spec fn echo_kind(target: Expectation) -> ChangeKind {
    match target {
        Expectation::Present(sig) => ChangeKind::Modified(sig),
        Expectation::Absent => ChangeKind::Removed,
    }
}

proof fn journal_then_retire(
    echo: Map<Seq<char>, Seq<Expectation>>,
    path: Seq<char>,
    e: Expectation,
)
    ensures
        engine::expects(engine::journalled(echo, path, e), path, e),
        (!engine::expects(echo, path, e) && !(echo.dom().contains(path) && echo[path].len() == 0))
            ==> engine::retired(engine::journalled(echo, path, e), path, e) == echo,
{
    let list = engine::pending(echo, path);
    let longer = list.push(e);
    let j = engine::journalled(echo, path, e);
    assert(engine::pending(j, path) == longer);
    engine::first_match_spec(longer, e, 0);
    let k = engine::first_match(longer, e, 0);
    assert(longer[list.len() as int] == e);
    if k == longer.len() {
        assert(!engine::matching(longer[list.len() as int], e));
    }
    if !engine::expects(echo, path, e) {
        engine::first_match_spec(list, e, 0);
        assert(k == list.len()) by {
            if k < list.len() {
                assert(longer[k] == list[k]);
                assert(!engine::matching(list[k], e));
            }
        }
        let rest = longer.update(k, longer.last()).drop_last();
        assert(rest =~= list);
        if !(echo.dom().contains(path) && echo[path].len() == 0) {
            assert(engine::retired(j, path, e) =~= echo);
        }
    }
}

/// Law: the echo of a write is swallowed. When a version from the peer makes
/// the engine ask for a write, the local event that the write causes yields no
/// action and leaves the index alone, and it settles the journal.
pub proof fn echoes_are_swallowed(
    m: EngineModel,
    path: Seq<char>,
    h: HeadModel,
    target: Expectation,
)
    requires
        engine::remote_step(m, path, h).1.contains(ActionModel::Apply { path, target }),
    ensures
        ({
            let m1 = engine::remote_step(m, path, h).0;
            let m2 = engine::local_step(m1, path, echo_kind(target));
            &&& m2.1 == Seq::<ActionModel>::empty()
            &&& m2.0.index == m1.index
            &&& (!engine::expects(m.echo, path, target) && !(m.echo.dom().contains(path)
                && m.echo[path].len() == 0)) ==> m2.0.echo == m.echo
        }),
{
    let acts = engine::remote_step(m, path, h).1;
    let i = choose|i: int| 0 <= i < acts.len() && acts[i] == (ActionModel::Apply { path, target });
    if m.index.dom().contains(path) {
        let after = index::absorbed(m.index[path], h);
        conflicts_never_apply(path, after, index::winner_of(after), index::adoption(after));
        assert(target == engine::state_target(index::winner_of(after).state));
    } else {
        assert(target == engine::state_target(h.state));
    }
    journal_then_retire(m.echo, path, target);
}

/// Resolving a conflict asks for no write.
pub proof fn conflicts_never_apply(
    path: Seq<char>,
    heads: Seq<HeadModel>,
    w: HeadModel,
    adopted: bool,
)
    ensures
        forall|i: int|
            0 <= i < engine::conflict_actions(path, heads, w, adopted).len() ==> ((
            #[trigger] engine::conflict_actions(path, heads, w, adopted)[i]) is ConflictResolved),
    decreases heads.len(),
{
    if heads.len() > 0 {
        conflicts_never_apply(path, heads.drop_last(), w, adopted);
    }
}

/// The winner of a single head is that head.
pub proof fn single_winner(h: HeadModel)
    ensures
        index::winner_of(seq![h]) == h,
{
    let s = seq![h];
    let r = index::rank(h, index::adoption(s));
    order::lex_irreflexive(r);
    assert(index::is_winner(s, 0)) by {
        assert forall|j: int| 0 <= j < s.len() implies !order::lex_lt(
            index::rank(s[0], index::adoption(s)),
            index::rank(#[trigger] s[j], index::adoption(s)),
        ) by {
            assert(s[j] == h);
        }
    }
    let c = choose|k: int| index::is_winner(s, k);
    index::winner_unique(s, 0, c);
}

/// Law: a local change that was just taken in is no news a second time.
pub proof fn repeated_local_change_is_silent(m: EngineModel, path: Seq<char>, kind: ChangeKind)
    requires
        engine::is_news(m, path, kind),
    ensures
        engine::local_step(engine::local_step(m, path, kind).0, path, kind) == (
            engine::local_step(m, path, kind).0,
            Seq::<ActionModel>::empty(),
        ),
{
    let m1 = engine::local_step(m, path, kind).0;
    let h = HeadModel { version: engine::next_version(m, path), state: engine::kind_state(kind) };
    assert(m1.index[path] == seq![h]);
    single_winner(h);
    assert(engine::local_step(m1, path, kind).1 =~= Seq::<ActionModel>::empty());
}

// ---- what deliveries do to the index ---------------------------------------
/// The heads after several versions arrived.
pub open spec fn absorb_all(heads: Seq<HeadModel>, hs: Seq<HeadModel>) -> Seq<HeadModel>
    decreases hs.len(),
{
    if hs.len() == 0 {
        heads
    } else {
        index::absorbed(absorb_all(heads, hs.drop_last()), hs.last())
    }
}

/// Versions that arrive one after the other are delivered.
pub proof fn absorb_all_delivers(ds: Seq<HeadModel>, hs: Seq<HeadModel>)
    ensures
        absorb_all(convergence::deliver(ds), hs) == convergence::deliver(ds + hs),
    decreases hs.len(),
{
    if hs.len() == 0 {
        assert(ds + hs =~= ds);
    } else {
        absorb_all_delivers(ds, hs.drop_last());
        assert((ds + hs).drop_last() =~= ds + hs.drop_last());
        assert((ds + hs).last() == hs.last());
    }
}

proof fn absorb_into_nothing(h: HeadModel)
    ensures
        index::absorbed(seq![], h) == seq![h],
{
    convergence::dominating_version_replaces(seq![], h);
}

/// One version from the peer is absorbed at its path; no other path changes.
proof fn remote_step_index(m: EngineModel, path: Seq<char>, h: HeadModel)
    ensures
        engine::remote_step(m, path, h).0.index == m.index.insert(
            path,
            index::absorbed(engine::peer_heads(m.index, path), h),
        ),
        engine::remote_step(m, path, h).0.replica == m.replica,
{
    absorb_into_nothing(h);
    let m1 = engine::remote_step(m, path, h).0;
    assert(m1.index =~= m.index.insert(
        path,
        index::absorbed(engine::peer_heads(m.index, path), h),
    ));
}

/// Versions from the peer are absorbed at their path; no other path changes.
pub proof fn remote_steps_index(m: EngineModel, path: Seq<char>, hs: Seq<HeadModel>)
    ensures
        engine::remote_steps(m, path, hs).0.index == if hs.len() == 0 {
            m.index
        } else {
            m.index.insert(path, absorb_all(engine::peer_heads(m.index, path), hs))
        },
        engine::remote_steps(m, path, hs).0.replica == m.replica,
    decreases hs.len(),
{
    if hs.len() > 0 {
        let before = hs.drop_last();
        remote_steps_index(m, path, before);
        let m1 = engine::remote_steps(m, path, before).0;
        remote_step_index(m1, path, hs.last());
        assert(engine::peer_heads(m1.index, path) == absorb_all(
            engine::peer_heads(m.index, path),
            before,
        ));
        assert(m1.index.insert(path, absorb_all(engine::peer_heads(m.index, path), hs))
            =~= m.index.insert(path, absorb_all(engine::peer_heads(m.index, path), hs)));
    }
}

/// What the index holds at `p` after the paths were reconciled.
pub proof fn path_steps_index(
    m: EngineModel,
    peer: Map<Seq<char>, Seq<HeadModel>>,
    ps: Seq<Seq<char>>,
    p: Seq<char>,
)
    requires
        engine::ascending_paths(ps),
    ensures
        engine::path_steps(m, peer, ps).0.replica == m.replica,
        ({
            let after = engine::path_steps(m, peer, ps).0.index;
            let theirs = engine::peer_heads(peer, p);
            if ps.contains(p) && theirs.len() > 0 {
                &&& after.dom().contains(p)
                &&& after[p] == absorb_all(engine::peer_heads(m.index, p), theirs)
            } else {
                &&& after.dom().contains(p) == m.index.dom().contains(p)
                &&& engine::peer_heads(after, p) == engine::peer_heads(m.index, p)
            }
        }),
    decreases ps.len(),
{
    if ps.len() > 0 {
        let before = ps.drop_last();
        let q = ps.last();
        assert(engine::ascending_paths(before)) by {
            assert forall|i: int, j: int| 0 <= i < j < before.len() implies order::text_lt(
                #[trigger] before[i],
                #[trigger] before[j],
            ) by {
                assert(before[i] == ps[i] && before[j] == ps[j]);
            }
        }
        path_steps_index(m, peer, before, p);
        path_steps_index(m, peer, before, q);
        let m1 = engine::path_steps(m, peer, before).0;
        assert(!before.contains(q)) by {
            if before.contains(q) {
                let k = choose|k: int| 0 <= k < before.len() && before[k] == q;
                assert(order::text_lt(ps[k], ps[ps.len() - 1]));
                order::text_order(q, q, q);
            }
        }
        remote_steps_index(m1, q, engine::peer_heads(peer, q));
        if p == q {
            assert(ps[ps.len() - 1] == p);
            assert(ps.contains(p));
        } else {
            assert(ps.contains(p) == before.contains(p)) by {
                if ps.contains(p) {
                    let k = choose|k: int| 0 <= k < ps.len() && ps[k] == p;
                    assert(before[k] == p);
                }
                if before.contains(p) {
                    let k = choose|k: int| 0 <= k < before.len() && before[k] == p;
                    assert(ps[k] == p);
                }
            }
        }
    }
}

// ---- listing a set of paths ------------------------------------------------
spec fn insert_path(ps: Seq<Seq<char>>, x: Seq<char>) -> Seq<Seq<char>>
    decreases ps.len(),
{
    if ps.len() > 0 && order::text_lt(x, ps.last()) {
        insert_path(ps.drop_last(), x).push(ps.last())
    } else {
        ps.push(x)
    }
}

proof fn insert_path_elements(ps: Seq<Seq<char>>, x: Seq<char>)
    ensures
        forall|p: Seq<char>| #[trigger]
            insert_path(ps, x).contains(p) <==> (ps.contains(p) || p == x),
    decreases ps.len(),
{
    if ps.len() > 0 && order::text_lt(x, ps.last()) {
        let q = ps.drop_last();
        insert_path_elements(q, x);
        let r = insert_path(q, x);
        assert forall|p: Seq<char>| #[trigger] r.push(ps.last()).contains(p) <==> (ps.contains(p)
            || p == x) by {
            push_text_elements(r, ps.last(), p);
            push_text_elements(q, ps.last(), p);
            assert(ps =~= q.push(ps.last()));
        }
    } else {
        assert forall|p: Seq<char>| #[trigger] ps.push(x).contains(p) <==> (ps.contains(p) || p
            == x) by {
            push_text_elements(ps, x, p);
        }
    }
}

proof fn push_text_elements(s: Seq<Seq<char>>, x: Seq<char>, p: Seq<char>)
    ensures
        s.push(x).contains(p) <==> (s.contains(p) || p == x),
{
    if s.contains(p) {
        let i = choose|i: int| 0 <= i < s.len() && s[i] == p;
        assert(s.push(x)[i] == p);
    }
    if p == x {
        assert(s.push(x)[s.len() as int] == p);
    }
    if s.push(x).contains(p) {
        let i = choose|i: int| 0 <= i < s.push(x).len() && s.push(x)[i] == p;
        if i < s.len() {
            assert(s[i] == p);
        }
    }
}

proof fn insert_path_ascending(ps: Seq<Seq<char>>, x: Seq<char>)
    requires
        engine::ascending_paths(ps),
        !ps.contains(x),
    ensures
        engine::ascending_paths(insert_path(ps, x)),
    decreases ps.len(),
{
    if ps.len() > 0 && order::text_lt(x, ps.last()) {
        let q = ps.drop_last();
        assert(engine::ascending_paths(q)) by {
            assert forall|i: int, j: int| 0 <= i < j < q.len() implies order::text_lt(
                #[trigger] q[i],
                #[trigger] q[j],
            ) by {
                assert(q[i] == ps[i] && q[j] == ps[j]);
            }
        }
        assert(!q.contains(x)) by {
            if q.contains(x) {
                let k = choose|k: int| 0 <= k < q.len() && q[k] == x;
                assert(ps[k] == x);
            }
        }
        insert_path_ascending(q, x);
        insert_path_elements(q, x);
        let r = insert_path(q, x);
        let all = r.push(ps.last());
        assert forall|i: int, j: int| 0 <= i < j < all.len() implies order::text_lt(
            #[trigger] all[i],
            #[trigger] all[j],
        ) by {
            if j == r.len() {
                assert(r.contains(r[i]));
                if r[i] != x {
                    assert(q.contains(r[i]));
                    let k = choose|k: int| 0 <= k < q.len() && q[k] == r[i];
                    assert(ps[k] == r[i]);
                    assert(order::text_lt(ps[k], ps[ps.len() - 1]));
                }
            }
        }
    } else {
        let all = ps.push(x);
        assert forall|i: int, j: int| 0 <= i < j < all.len() implies order::text_lt(
            #[trigger] all[i],
            #[trigger] all[j],
        ) by {
            if j == ps.len() {
                let l = ps[ps.len() - 1];
                assert(ps.contains(l));
                order::text_order(l, x, x);
                order::text_order(x, l, l);
                if i < ps.len() - 1 {
                    assert(order::text_lt(ps[i], l));
                    order::text_order(ps[i], l, x);
                }
            }
        }
    }
}

/// A finite set of paths has an ascending listing.
pub proof fn in_order_exists(s: Set<Seq<char>>)
    requires
        s.finite(),
    ensures
        engine::ascending_paths(engine::in_order(s)),
        engine::in_order(s).to_set() == s,
    decreases s.len(),
{
    let ps = listing_of(s);
    assert(engine::ascending_paths(ps) && ps.to_set() == s);
}

proof fn listing_of(s: Set<Seq<char>>) -> (ps: Seq<Seq<char>>)
    requires
        s.finite(),
    ensures
        engine::ascending_paths(ps),
        ps.to_set() == s,
    decreases s.len(),
{
    if s.len() == 0 {
        let ps = Seq::<Seq<char>>::empty();
        assert(s =~= Set::empty());
        assert(ps.to_set() =~= s);
        ps
    } else {
        let x = s.choose();
        let rest = listing_of(s.remove(x));
        assert(!rest.contains(x)) by {
            assert(rest.to_set().contains(x) == rest.contains(x));
        }
        insert_path_ascending(rest, x);
        insert_path_elements(rest, x);
        let ps = insert_path(rest, x);
        assert forall|p: Seq<char>| ps.to_set().contains(p) <==> s.contains(p) by {
            assert(ps.contains(p) <==> (rest.contains(p) || p == x));
            assert(rest.to_set().contains(p) == rest.contains(p));
        }
        assert(ps.to_set() =~= s);
        ps
    }
}

// ---- the laws of reconciliation --------------------------------------------
proof fn known_versions_are_silent(m: EngineModel, path: Seq<char>, hs: Seq<HeadModel>)
    requires
        hs.len() > 0 ==> m.index.dom().contains(path),
        forall|i: int|
            0 <= i < hs.len() ==> index::knows(m.index[path], (#[trigger] hs[i]).version),
    ensures
        engine::remote_steps(m, path, hs) == (m, Seq::<ActionModel>::empty()),
    decreases hs.len(),
{
    if hs.len() > 0 {
        let before = hs.drop_last();
        assert forall|i: int| 0 <= i < before.len() implies index::knows(
            m.index[path],
            (#[trigger] before[i]).version,
        ) by {
            assert(before[i] == hs[i]);
        }
        known_versions_are_silent(m, path, before);
        assert(index::knows(m.index[path], hs[hs.len() - 1].version));
        assert(engine::remote_steps(m, path, hs).1 =~= Seq::<ActionModel>::empty());
    } else {
        assert(engine::remote_steps(m, path, hs).1 =~= Seq::<ActionModel>::empty());
    }
}

proof fn covered_heads_are_not_sent(path: Seq<char>, hs: Seq<HeadModel>, peer: Seq<HeadModel>)
    requires
        forall|i: int| 0 <= i < hs.len() ==> index::knows(peer, (#[trigger] hs[i]).version),
    ensures
        engine::send_actions(path, hs, peer) == Seq::<ActionModel>::empty(),
    decreases hs.len(),
{
    if hs.len() > 0 {
        let before = hs.drop_last();
        assert forall|i: int| 0 <= i < before.len() implies index::knows(
            peer,
            (#[trigger] before[i]).version,
        ) by {
            assert(before[i] == hs[i]);
        }
        covered_heads_are_not_sent(path, before, peer);
        assert(index::knows(peer, hs[hs.len() - 1].version));
    }
}

proof fn own_index_is_silent(m: EngineModel, ps: Seq<Seq<char>>)
    ensures
        engine::path_steps(m, m.index, ps) == (m, Seq::<ActionModel>::empty()),
    decreases ps.len(),
{
    if ps.len() > 0 {
        own_index_is_silent(m, ps.drop_last());
        let p = ps.last();
        let theirs = engine::peer_heads(m.index, p);
        assert forall|i: int| 0 <= i < theirs.len() implies index::knows(
            theirs,
            (#[trigger] theirs[i]).version,
        ) by {
            clock::leq_reflexive(theirs[i].version);
        }
        known_versions_are_silent(m, p, theirs);
        covered_heads_are_not_sent(p, theirs, theirs);
        assert(engine::path_step(m, m.index, p).1 =~= Seq::<ActionModel>::empty());
        assert(engine::path_steps(m, m.index, ps).1 =~= Seq::<ActionModel>::empty());
    } else {
        assert(engine::path_steps(m, m.index, ps).1 =~= Seq::<ActionModel>::empty());
    }
}

/// Law: the network is quiet after convergence. Reconciling with a peer that
/// has the same index asks for nothing and changes nothing.
pub proof fn converged_peers_are_silent(m: EngineModel)
    ensures
        engine::peer_step(m, m.index) == (m, Seq::<ActionModel>::empty()),
{
    own_index_is_silent(m, engine::in_order(m.index.dom().union(m.index.dom())));
}

/// Two replicas whose versions fit together: each entry is canonical, and
/// versions that compare equal are the same.
pub open spec fn compatible(
    a: Map<Seq<char>, Seq<HeadModel>>,
    b: Map<Seq<char>, Seq<HeadModel>>,
) -> bool {
    &&& a.dom().finite()
    &&& b.dom().finite()
    &&& forall|p: Seq<char>| #[trigger] a.dom().contains(p) ==> convergence::canonical(a[p])
    &&& forall|p: Seq<char>| #[trigger] b.dom().contains(p) ==> convergence::canonical(b[p])
    &&& forall|p: Seq<char>|
        convergence::consistent(#[trigger] engine::peer_heads(a, p) + engine::peer_heads(b, p))
}

proof fn exchange_agrees_at(a: EngineModel, b: EngineModel, p: Seq<char>)
    requires
        compatible(a.index, b.index),
    ensures
        ({
            let x = engine::peer_step(a, b.index).0.index;
            let y = engine::peer_step(b, a.index).0.index;
            x.dom().contains(p) == y.dom().contains(p) && (x.dom().contains(p) ==> x[p] == y[p])
        }),
{
    let dom = a.index.dom().union(b.index.dom());
    assert(dom =~= b.index.dom().union(a.index.dom()));
    in_order_exists(dom);
    let ps = engine::in_order(dom);
    path_steps_index(a, b.index, ps, p);
    path_steps_index(b, a.index, ps, p);
    let ha = engine::peer_heads(a.index, p);
    let hb = engine::peer_heads(b.index, p);
    assert(ps.contains(p) == ps.to_set().contains(p));
    assert(convergence::deliver(Seq::<HeadModel>::empty()) =~= Seq::<HeadModel>::empty());
    if a.index.dom().contains(p) && b.index.dom().contains(p) {
        swapped_heads_agree(ha, hb);
    } else if a.index.dom().contains(p) {
        convergence::canonical_is_delivered(ha);
        absorb_all_delivers(Seq::empty(), ha);
        assert(Seq::<HeadModel>::empty() + ha =~= ha);
    } else if b.index.dom().contains(p) {
        convergence::canonical_is_delivered(hb);
        absorb_all_delivers(Seq::empty(), hb);
        assert(Seq::<HeadModel>::empty() + hb =~= hb);
    }
}

/// Law: one exchange of indices makes two replicas agree.
pub proof fn exchange_converges(a: EngineModel, b: EngineModel)
    requires
        compatible(a.index, b.index),
    ensures
        engine::peer_step(a, b.index).0.index == engine::peer_step(b, a.index).0.index,
{
    let x = engine::peer_step(a, b.index).0.index;
    let y = engine::peer_step(b, a.index).0.index;
    assert forall|p: Seq<char>| x.dom().contains(p) == y.dom().contains(p) by {
        exchange_agrees_at(a, b, p);
    }
    assert(x.dom() =~= y.dom());
    assert forall|p: Seq<char>| x.dom().contains(p) implies x[p] == y[p] by {
        exchange_agrees_at(a, b, p);
    }
    assert(x =~= y);
}

/// Law: reconciling keeps every path of either side, and at each path exactly the
/// causally maximal heads of both sides. A path that the peer does not have stays
/// as it is.
pub proof fn reconciling_keeps_the_maximal_heads(
    m: EngineModel,
    peer: Map<Seq<char>, Seq<HeadModel>>,
    p: Seq<char>,
)
    requires
        compatible(m.index, peer),
    ensures
        ({
            let after = engine::peer_step(m, peer).0.index;
            let both = engine::peer_heads(m.index, p) + engine::peer_heads(peer, p);
            &&& after.dom().contains(p) <==> (m.index.dom().contains(p) || peer.dom().contains(p))
            &&& forall|h: HeadModel| #[trigger]
                engine::peer_heads(after, p).contains(h) <==> convergence::maximal(both, h)
            &&& after.dom().contains(p) ==> convergence::canonical(after[p])
            &&& !peer.dom().contains(p) ==> engine::peer_heads(after, p) == engine::peer_heads(
                m.index,
                p,
            )
        }),
{
    let dom = m.index.dom().union(peer.dom());
    in_order_exists(dom);
    let ps = engine::in_order(dom);
    path_steps_index(m, peer, ps, p);
    assert(ps.contains(p) == ps.to_set().contains(p));
    let ours = engine::peer_heads(m.index, p);
    let theirs = engine::peer_heads(peer, p);
    let both = ours + theirs;
    assert(convergence::consistent(engine::peer_heads(m.index, p) + engine::peer_heads(peer, p)));
    entry_is_delivered(ours);
    entry_is_delivered(theirs);
    absorb_all_delivers(ours, theirs);
    assert(convergence::fits(both)) by {
        assert forall|i: int| 0 <= i < both.len() implies (#[trigger] both[i]).version.len()
            <= u64::MAX by {
            if i < ours.len() {
                assert(both[i] == ours[i]);
            } else {
                assert(both[i] == theirs[i - ours.len()]);
            }
        }
    }
    convergence::heads_are_the_maximal_versions(both);
    if both.len() > 0 {
        convergence::delivered_is_canonical(both);
    } else {
        assert(both =~= Seq::<HeadModel>::empty());
    }
    assert(theirs.len() == 0 ==> both =~= ours);
    assert(engine::peer_heads(engine::peer_step(m, peer).0.index, p) == convergence::deliver(both));
}

proof fn swapped_heads_agree(ha: Seq<HeadModel>, hb: Seq<HeadModel>)
    requires
        convergence::canonical(ha),
        convergence::canonical(hb),
        convergence::consistent(ha + hb),
    ensures
        absorb_all(ha, hb) == absorb_all(hb, ha),
{
    convergence::canonical_is_delivered(ha);
    convergence::canonical_is_delivered(hb);
    absorb_all_delivers(ha, hb);
    absorb_all_delivers(hb, ha);
    let x = ha + hb;
    let y = hb + ha;
    assert(convergence::same_elements(x, y)) by {
        assert forall|h: HeadModel| #[trigger] x.contains(h) <==> y.contains(h) by {
            concat_elements(ha, hb, h);
            concat_elements(hb, ha, h);
        }
    }
    assert(convergence::fits(x)) by {
        assert forall|i: int| 0 <= i < x.len() implies (#[trigger] x[i]).version.len()
            <= u64::MAX by {
            if i < ha.len() {
                assert(x[i] == ha[i]);
            } else {
                assert(x[i] == hb[i - ha.len()]);
            }
        }
    }
    convergence::deliveries_converge(x, y);
}

/// What two sequences hold together.
pub proof fn concat_elements(a: Seq<HeadModel>, b: Seq<HeadModel>, h: HeadModel)
    ensures
        (a + b).contains(h) <==> (a.contains(h) || b.contains(h)),
{
    if a.contains(h) {
        let i = choose|i: int| 0 <= i < a.len() && a[i] == h;
        assert((a + b)[i] == h);
    }
    if b.contains(h) {
        let i = choose|i: int| 0 <= i < b.len() && b[i] == h;
        assert((a + b)[a.len() + i] == h);
    }
    if (a + b).contains(h) {
        let i = choose|i: int| 0 <= i < (a + b).len() && (a + b)[i] == h;
        if i < a.len() {
            assert(a[i] == h);
        } else {
            assert(b[i - a.len()] == h);
        }
    }
}

/// The heads that the peer does not cover.
pub open spec fn lacking(hs: Seq<HeadModel>, peer: Seq<HeadModel>) -> Seq<HeadModel>
    decreases hs.len(),
{
    if hs.len() == 0 {
        seq![]
    } else {
        let rest = lacking(hs.drop_last(), peer);
        if index::knows(peer, hs.last().version) {
            rest
        } else {
            rest.push(hs.last())
        }
    }
}

/// The change that ships a head.
pub open spec fn shipped(path: Seq<char>, h: HeadModel) -> ActionModel {
    ActionModel::Send { path, kind: engine::state_kind(h.state), version: h.version }
}

/// The send actions ship exactly the heads that the peer does not cover.
pub proof fn sends_ship_what_is_lacking(path: Seq<char>, hs: Seq<HeadModel>, peer: Seq<HeadModel>)
    ensures
        engine::send_actions(path, hs, peer).len() == lacking(hs, peer).len(),
        forall|i: int|
            0 <= i < lacking(hs, peer).len() ==> (#[trigger] engine::send_actions(
                path,
                hs,
                peer,
            )[i]) == shipped(path, lacking(hs, peer)[i]),
    decreases hs.len(),
{
    if hs.len() > 0 {
        sends_ship_what_is_lacking(path, hs.drop_last(), peer);
    }
}

/// Which heads the peer lacks.
pub proof fn lacking_elements(hs: Seq<HeadModel>, peer: Seq<HeadModel>, x: HeadModel)
    ensures
        lacking(hs, peer).contains(x) <==> (hs.contains(x) && !index::knows(peer, x.version)),
    decreases hs.len(),
{
    if hs.len() > 0 {
        let p = hs.drop_last();
        lacking_elements(p, peer, x);
        assert(hs =~= p.push(hs.last()));
        push_head(p, hs.last(), x);
        push_head(lacking(p, peer), hs.last(), x);
    }
}

proof fn push_head(s: Seq<HeadModel>, h: HeadModel, x: HeadModel)
    ensures
        s.push(h).contains(x) <==> (s.contains(x) || x == h),
{
    concat_elements(s, seq![h], x);
    assert(s.push(h) =~= s + seq![h]);
    assert(seq![h][0] == h);
}

/// Every head of an index entry is canonical, or there is none.
proof fn entry_is_delivered(hs: Seq<HeadModel>)
    requires
        hs.len() == 0 || convergence::canonical(hs),
    ensures
        convergence::deliver(hs) == hs,
        convergence::fits(hs),
{
    if hs.len() == 0 {
        assert(convergence::deliver(hs) =~= hs);
    } else {
        convergence::canonical_is_delivered(hs);
    }
}

/// Law: what a reconciliation ships is enough. A peer that takes in the shipped
/// heads has the same entry as the replica that shipped them.
pub proof fn shipped_heads_suffice(a: EngineModel, b: EngineModel, p: Seq<char>)
    requires
        compatible(a.index, b.index),
    ensures
        ({
            let merged = engine::peer_heads(engine::peer_step(a, b.index).0.index, p);
            let theirs = engine::peer_heads(b.index, p);
            absorb_all(theirs, lacking(merged, theirs)) == merged
        }),
{
    let dom = a.index.dom().union(b.index.dom());
    in_order_exists(dom);
    let ps = engine::in_order(dom);
    path_steps_index(a, b.index, ps, p);
    assert(ps.contains(p) == ps.to_set().contains(p));
    let ha = engine::peer_heads(a.index, p);
    let hb = engine::peer_heads(b.index, p);
    let merged = engine::peer_heads(engine::peer_step(a, b.index).0.index, p);
    assert(merged == absorb_all(ha, hb));
    entry_is_delivered(ha);
    entry_is_delivered(hb);
    absorb_all_delivers(ha, hb);
    absorb_all_delivers(hb, lacking(merged, hb));
    let u = ha + hb;
    let s = hb + lacking(merged, hb);
    assert(convergence::consistent(engine::peer_heads(a.index, p) + engine::peer_heads(b.index, p)));
    assert(convergence::fits(u)) by {
        assert forall|i: int| 0 <= i < u.len() implies (#[trigger] u[i]).version.len()
            <= u64::MAX by {
            if i < ha.len() {
                assert(u[i] == ha[i]);
            } else {
                assert(u[i] == hb[i - ha.len()]);
            }
        }
    }
    enough_is_shipped(u, hb, ha);
}

proof fn enough_is_shipped(u: Seq<HeadModel>, hb: Seq<HeadModel>, ha: Seq<HeadModel>)
    requires
        u == ha + hb,
        convergence::consistent(u),
        convergence::fits(u),
    ensures
        convergence::deliver(hb + lacking(convergence::deliver(u), hb)) == convergence::deliver(u),
{
    let merged = convergence::deliver(u);
    let l = lacking(merged, hb);
    let s = hb + l;
    convergence::heads_are_the_maximal_versions(u);
    // What is at hand afterwards was at hand before.
    assert forall|x: HeadModel| s.contains(x) implies u.contains(x) by {
        concat_elements(hb, l, x);
        concat_elements(ha, hb, x);
        lacking_elements(merged, hb, x);
        if l.contains(x) {
            assert(merged.contains(x));
            assert(convergence::maximal(u, x));
        }
    }
    // Every maximal version is at hand afterwards.
    assert forall|x: HeadModel| convergence::maximal(u, x) implies s.contains(x) by {
        concat_elements(hb, l, x);
        lacking_elements(merged, hb, x);
        assert(merged.contains(x));
        if index::knows(hb, x.version) {
            let k = choose|k: int|
                0 <= k < hb.len() && clock::leq(x.version, (#[trigger] hb[k]).version);
            let y = hb[k];
            assert(u[ha.len() + k] == y);
            assert(!clock::before(x.version, u[ha.len() + k].version));
            let ix = choose|i: int| 0 <= i < u.len() && u[i] == x;
            assert(u[ix] == u[ha.len() + k]);
            assert(hb.contains(y));
        }
    }
    assert(convergence::consistent(s)) by {
        assert forall|i: int, j: int|
            0 <= i < s.len() && 0 <= j < s.len() && clock::leq(
                (#[trigger] s[i]).version,
                (#[trigger] s[j]).version,
            ) && clock::leq(s[j].version, s[i].version) implies s[i] == s[j] by {
            assert(s.contains(s[i]) && s.contains(s[j]));
            assert(u.contains(s[i]) && u.contains(s[j]));
            let x = choose|x: int| 0 <= x < u.len() && u[x] == s[i];
            let y = choose|y: int| 0 <= y < u.len() && u[y] == s[j];
            assert(clock::leq(u[x].version, u[y].version));
        }
    }
    assert(convergence::fits(s)) by {
        assert forall|i: int| 0 <= i < s.len() implies (#[trigger] s[i]).version.len()
            <= u64::MAX by {
            assert(s.contains(s[i]));
            assert(u.contains(s[i]));
            let x = choose|x: int| 0 <= x < u.len() && u[x] == s[i];
            assert(u[x].version.len() <= u64::MAX);
        }
    }
    convergence::heads_are_the_maximal_versions(s);
    assert(convergence::same_elements(convergence::deliver(s), merged)) by {
        assert forall|x: HeadModel| #[trigger]
            convergence::deliver(s).contains(x) <==> merged.contains(x) by {
            assert(convergence::deliver(s).contains(x) <==> convergence::maximal(s, x));
            assert(merged.contains(x) <==> convergence::maximal(u, x));
            if convergence::maximal(u, x) {
                assert(s.contains(x));
                assert forall|j: int| 0 <= j < s.len() implies !clock::before(
                    x.version,
                    (#[trigger] s[j]).version,
                ) by {
                    assert(s.contains(s[j]));
                    assert(u.contains(s[j]));
                    let k = choose|k: int| 0 <= k < u.len() && u[k] == s[j];
                    assert(!clock::before(x.version, u[k].version));
                }
            }
            if convergence::maximal(s, x) {
                assert(u.contains(x));
                assert forall|j: int| 0 <= j < u.len() implies !clock::before(
                    x.version,
                    (#[trigger] u[j]).version,
                ) by {
                    if clock::before(x.version, u[j].version) {
                        assert(index::knows(merged, u[j].version));
                        let k = choose|k: int|
                            0 <= k < merged.len() && clock::leq(
                                u[j].version,
                                (#[trigger] merged[k]).version,
                            );
                        let z = merged[k];
                        assert(merged.contains(z));
                        assert(convergence::maximal(u, z));
                        assert(s.contains(z));
                        clock::leq_transitive(x.version, u[j].version, z.version);
                        let n = choose|n: int| 0 <= n < s.len() && s[n] == z;
                        assert(!clock::before(x.version, s[n].version));
                    }
                }
            }
        }
    }
    convergence::ascending_unique(convergence::deliver(s), merged);
}

// ---- runs ------------------------------------------------------------------
/// The state after the events, in their order.
pub open spec fn run(m: EngineModel, es: Seq<EventModel>) -> EngineModel
    decreases es.len(),
{
    if es.len() == 0 {
        m
    } else {
        engine::step(run(m, es.drop_last()), es.last()).0
    }
}

/// The versions of path `p` that an event brings into state `m`.
pub open spec fn brought(m: EngineModel, e: EventModel, p: Seq<char>) -> Seq<HeadModel> {
    match e {
        EventModel::Local { path, kind } => if path == p && engine::is_news(m, path, kind) {
            seq![
                HeadModel {
                    version: engine::next_version(m, path),
                    state: engine::kind_state(kind),
                },
            ]
        } else {
            seq![]
        },
        EventModel::Remote { path, kind, version } => if path == p {
            seq![HeadModel { version, state: engine::kind_state(kind) }]
        } else {
            seq![]
        },
        EventModel::PeerIndex { peer } => engine::peer_heads(peer, p),
    }
}

/// All the versions of path `p` that a run has seen.
pub open spec fn seen(m: EngineModel, es: Seq<EventModel>, p: Seq<char>) -> Seq<HeadModel>
    decreases es.len(),
{
    if es.len() == 0 {
        seq![]
    } else {
        seen(m, es.drop_last(), p) + brought(run(m, es.drop_last()), es.last(), p)
    }
}

/// An engine that has seen nothing.
pub open spec fn fresh(replica: u64) -> EngineModel {
    EngineModel { replica, index: Map::empty(), echo: Map::empty() }
}

/// Every event can happen: a local change finds room in its counter, and a peer
/// has finitely many paths, each with a head.
pub open spec fn sound_run(m: EngineModel, es: Seq<EventModel>) -> bool
    decreases es.len(),
{
    if es.len() == 0 {
        true
    } else {
        let before = run(m, es.drop_last());
        &&& sound_run(m, es.drop_last())
        &&& match es.last() {
            EventModel::Local { path, kind } => engine::is_news(before, path, kind)
                ==> engine::own_count(before, path) < u64::MAX,
            EventModel::Remote { .. } => true,
            EventModel::PeerIndex { peer } => peer.dom().finite() && engine::inhabited(peer),
        }
    }
}

proof fn counts_are_finite(s: Seq<(u64, u64)>)
    ensures
        clock::counts(s).dom().finite(),
{
    let keys = Seq::new(s.len(), |i: int| s[i].0);
    vstd::seq_lib::seq_to_set_is_finite(keys);
    assert(clock::counts(s).dom().subset_of(keys.to_set())) by {
        assert forall|r: u64| clock::counts(s).dom().contains(r) implies keys.to_set().contains(
            r,
        ) by {
            let i = choose|i: int| 0 <= i < s.len() && #[trigger] s[i].0 == r;
            assert(keys[i] == r);
        }
    }
    vstd::set_lib::lemma_set_subset_finite(keys.to_set(), clock::counts(s).dom());
}

proof fn context_is_finite(heads: Seq<HeadModel>)
    ensures
        index::context(heads).dom().finite(),
    decreases heads.len(),
{
    if heads.len() > 0 {
        context_is_finite(heads.drop_last());
        counts_are_finite(heads.last().version);
        let u = index::context(heads.drop_last()).dom().union(
            clock::counts(heads.last().version).dom(),
        );
        assert(index::context(heads).dom() =~= u);
    }
}

/// Finitely many counters can be listed as a clock.
proof fn clock_exists(m: Map<u64, u64>) -> (s: Seq<(u64, u64)>)
    requires
        m.dom().finite(),
    ensures
        clock::is_clock(s),
        clock::counts(s) == m,
    decreases m.dom().len(),
{
    if m.dom().len() == 0 {
        let s = Seq::<(u64, u64)>::empty();
        assert(m.dom() =~= Set::empty());
        assert(clock::counts(s) =~= m);
        s
    } else {
        let r = m.dom().choose();
        let rest = clock_exists(m.remove(r));
        clock::listing_insert(rest, r, m[r]);
        let s = clock::with(rest, r, m[r]);
        assert(clock::counts(s) =~= m);
        s
    }
}

/// The counters of the version that a local edit is stamped with.
pub proof fn next_version_counts(m: EngineModel, path: Seq<char>)
    ensures
        clock::is_clock(engine::next_version(m, path)),
        clock::counts(engine::next_version(m, path)) == engine::context_at(m, path).insert(
            m.replica,
            (engine::own_count(m, path) + 1) as u64,
        ),
{
    let heads = engine::peer_heads(m.index, path);
    let ctx = engine::context_at(m, path);
    context_is_finite(heads);
    assert(ctx.dom().finite()) by {
        assert(Map::<u64, u64>::empty().dom().finite());
    }
    let target = ctx.insert(m.replica, (engine::own_count(m, path) + 1) as u64);
    let witness = clock_exists(target);
    assert(clock::is_clock(witness) && clock::counts(witness) == target);
}

/// The version of a local edit comes after every head of its path.
pub proof fn minted_version_dominates(m: EngineModel, path: Seq<char>)
    requires
        engine::own_count(m, path) < u64::MAX,
    ensures
        forall|i: int|
            0 <= i < engine::peer_heads(m.index, path).len() ==> clock::before(
                (#[trigger] engine::peer_heads(m.index, path)[i]).version,
                engine::next_version(m, path),
            ),
{
    let heads = engine::peer_heads(m.index, path);
    let ctx = engine::context_at(m, path);
    let target = ctx.insert(m.replica, (engine::own_count(m, path) + 1) as u64);
    next_version_counts(m, path);
    let v = engine::next_version(m, path);
    assert(clock::is_clock(v) && clock::counts(v) == target);
    if m.index.dom().contains(path) {
        assert forall|i: int| 0 <= i < heads.len() implies clock::before(
            (#[trigger] heads[i]).version,
            v,
        ) by {
            context_covers(heads, i);
            let h = heads[i].version;
            assert forall|r: u64| #[trigger] clock::count(h, r) <= clock::count(v, r) by {
                assert(clock::counts(v).dom().contains(r) == target.dom().contains(r));
                if clock::mentions(v, r) {
                    assert(clock::counts(v)[r] == target[r]);
                }
                assert(clock::count(h, r) <= value_of(ctx, r));
            }
            assert(clock::counts(v)[m.replica] == clock::count(v, m.replica)) by {
                assert(clock::counts(v).dom().contains(m.replica));
            }
            assert(clock::count(v, m.replica) > value_of(ctx, m.replica));
            assert(clock::count(h, m.replica) <= value_of(ctx, m.replica));
            assert(!clock::leq(v, h)) by {
                assert(clock::count(v, m.replica) > clock::count(h, m.replica));
            }
        }
    }
}

/// The counter of a replica, zero where there is none.
pub open spec fn value_of(m: Map<u64, u64>, r: u64) -> u64 {
    if m.dom().contains(r) {
        m[r]
    } else {
        0
    }
}

/// The context is ahead of every head's clock.
pub proof fn context_covers(heads: Seq<HeadModel>, i: int)
    requires
        0 <= i < heads.len(),
    ensures
        forall|r: u64| #[trigger]
            clock::count(heads[i].version, r) <= value_of(index::context(heads), r),
    decreases heads.len(),
{
    let last = clock::counts(heads.last().version);
    assert forall|r: u64| clock::count(heads.last().version, r) == value_of(last, r) by {
        assert(last.dom().contains(r) == clock::mentions(heads.last().version, r));
    }
    if i < heads.len() - 1 {
        context_covers(heads.drop_last(), i);
        assert(heads.drop_last()[i] == heads[i]);
    }
    let rest = index::context(heads.drop_last());
    assert forall|r: u64| value_of(index::context(heads), r) >= value_of(rest, r) && value_of(
        index::context(heads),
        r,
    ) >= value_of(last, r) by {}
    assert forall|r: u64| #[trigger]
        clock::count(heads[i].version, r) <= value_of(index::context(heads), r) by {
        assert(value_of(index::context(heads), r) >= value_of(rest, r));
        assert(value_of(index::context(heads), r) >= value_of(last, r));
    }
}

/// One event absorbs exactly the versions it brings, at every path.
pub proof fn step_absorbs(m: EngineModel, e: EventModel, p: Seq<char>)
    requires
        m.index.dom().finite(),
        match e {
            EventModel::Local { path, kind } => engine::is_news(m, path, kind)
                ==> engine::own_count(m, path) < u64::MAX,
            EventModel::Remote { .. } => true,
            EventModel::PeerIndex { peer } => peer.dom().finite() && engine::inhabited(peer),
        },
    ensures
        ({
            let after = engine::step(m, e).0.index;
            &&& engine::peer_heads(after, p) == absorb_all(
                engine::peer_heads(m.index, p),
                brought(m, e, p),
            )
            &&& after.dom().contains(p) == (m.index.dom().contains(p) || brought(m, e, p).len()
                > 0)
        }),
{
    let heads = engine::peer_heads(m.index, p);
    let hs = brought(m, e, p);
    match e {
        EventModel::Local { path, kind } => {
            if path == p && engine::is_news(m, path, kind) {
                minted_version_dominates(m, path);
                let h = hs[0];
                convergence::dominating_version_replaces(heads, h);
                assert(hs.drop_last() =~= Seq::<HeadModel>::empty());
                assert(absorb_all(heads, hs) == index::absorbed(
                    absorb_all(heads, hs.drop_last()),
                    h,
                ));
            }
        },
        EventModel::Remote { path, kind, version } => {
            let h = HeadModel { version, state: engine::kind_state(kind) };
            remote_step_index(m, path, h);
            if path == p {
                assert(hs.drop_last() =~= Seq::<HeadModel>::empty());
                assert(absorb_all(heads, hs) == index::absorbed(
                    absorb_all(heads, hs.drop_last()),
                    h,
                ));
            }
        },
        EventModel::PeerIndex { peer } => {
            let dom = m.index.dom().union(peer.dom());
            in_order_exists(dom);
            let ps = engine::in_order(dom);
            path_steps_index(m, peer, ps, p);
            assert(ps.contains(p) == ps.to_set().contains(p));
        },
    }
}

/// An event leaves finitely many paths.
pub proof fn step_stays_finite(m: EngineModel, e: EventModel)
    requires
        m.index.dom().finite(),
        match e {
            EventModel::Local { path, kind } => engine::is_news(m, path, kind)
                ==> engine::own_count(m, path) < u64::MAX,
            EventModel::Remote { .. } => true,
            EventModel::PeerIndex { peer } => peer.dom().finite() && engine::inhabited(peer),
        },
    ensures
        engine::step(m, e).0.index.dom().finite(),
{
    let after = engine::step(m, e).0.index.dom();
    match e {
        EventModel::Local { path, kind } => {},
        EventModel::Remote { path, kind, version } => {
            remote_step_index(m, path, HeadModel { version, state: engine::kind_state(kind) });
        },
        EventModel::PeerIndex { peer } => {
            let dom = m.index.dom().union(peer.dom());
            assert(after.subset_of(dom)) by {
                assert forall|p: Seq<char>| after.contains(p) implies dom.contains(p) by {
                    step_absorbs(m, e, p);
                }
            }
            vstd::set_lib::lemma_set_subset_finite(dom, after);
        },
    }
}

proof fn run_stays_finite(m: EngineModel, es: Seq<EventModel>)
    requires
        m.index.dom().finite(),
        sound_run(m, es),
    ensures
        run(m, es).index.dom().finite(),
    decreases es.len(),
{
    if es.len() > 0 {
        run_stays_finite(m, es.drop_last());
        step_stays_finite(run(m, es.drop_last()), es.last());
    }
}

/// Law: whatever happened, in whatever order, an engine's entry for a path is
/// what delivering the versions that it has seen of that path builds: local
/// edits, versions from the peer and reconciliation alike.
pub proof fn index_is_what_was_seen(replica: u64, es: Seq<EventModel>, p: Seq<char>)
    requires
        sound_run(fresh(replica), es),
    ensures
        engine::peer_heads(run(fresh(replica), es).index, p) == convergence::deliver(
            seen(fresh(replica), es, p),
        ),
        run(fresh(replica), es).index.dom().contains(p) <==> seen(fresh(replica), es, p).len() > 0,
    decreases es.len(),
{
    let m = fresh(replica);
    if es.len() > 0 {
        let before = es.drop_last();
        index_is_what_was_seen(replica, before, p);
        run_stays_finite(m, before);
        let mid = run(m, before);
        step_absorbs(mid, es.last(), p);
        absorb_all_delivers(seen(m, before, p), brought(mid, es.last(), p));
    }
}

/// Law: replicas converge. Two engines that have seen the same versions of
/// every path, in any order, any batching and any number of deliveries, have
/// the same index.
pub proof fn replicas_converge(r: u64, es: Seq<EventModel>, q: u64, fs: Seq<EventModel>)
    requires
        sound_run(fresh(r), es),
        sound_run(fresh(q), fs),
        forall|p: Seq<char>|
            convergence::same_elements(
                #[trigger] seen(fresh(r), es, p),
                seen(fresh(q), fs, p),
            ),
        forall|p: Seq<char>| convergence::consistent(#[trigger] seen(fresh(r), es, p)),
        forall|p: Seq<char>| convergence::fits(#[trigger] seen(fresh(r), es, p)),
    ensures
        run(fresh(r), es).index == run(fresh(q), fs).index,
{
    let x = run(fresh(r), es).index;
    let y = run(fresh(q), fs).index;
    assert forall|p: Seq<char>| x.dom().contains(p) == y.dom().contains(p) by {
        replicas_agree_at(r, es, q, fs, p);
    }
    assert(x.dom() =~= y.dom());
    assert forall|p: Seq<char>| x.dom().contains(p) implies x[p] == y[p] by {
        replicas_agree_at(r, es, q, fs, p);
    }
    assert(x =~= y);
}

proof fn replicas_agree_at(
    r: u64,
    es: Seq<EventModel>,
    q: u64,
    fs: Seq<EventModel>,
    p: Seq<char>,
)
    requires
        sound_run(fresh(r), es),
        sound_run(fresh(q), fs),
        convergence::same_elements(seen(fresh(r), es, p), seen(fresh(q), fs, p)),
        convergence::consistent(seen(fresh(r), es, p)),
        convergence::fits(seen(fresh(r), es, p)),
    ensures
        ({
            let x = run(fresh(r), es).index;
            let y = run(fresh(q), fs).index;
            x.dom().contains(p) == y.dom().contains(p) && (x.dom().contains(p) ==> x[p] == y[p])
        }),
{
    let a = seen(fresh(r), es, p);
    let b = seen(fresh(q), fs, p);
    index_is_what_was_seen(r, es, p);
    index_is_what_was_seen(q, fs, p);
    convergence::deliveries_converge(a, b);
    if a.len() > 0 {
        assert(a.contains(a[0]));
        assert(b.contains(a[0]));
    }
    if b.len() > 0 {
        assert(b.contains(b[0]));
        assert(a.contains(b[0]));
    }
}

} // verus!
