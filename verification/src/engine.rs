//! The sync engine's transition function.
//!
//! [`Engine::handle`] maps an index and an event to a new index and the actions
//! to perform, without any I/O. Every ordering decision is made by vector
//! clocks, and conflicts are resolved locally and identically on both replicas.
//!
//! A write that the engine asks for makes the local watcher fire an event that
//! describes exactly that write. The engine journals every write it asks for
//! and swallows the matching local event when it arrives.

use crate::clock;
use crate::clock::{Causality, ReplicaId, VectorClock};
use crate::event::{ChangeKind, LocalChange, RemoteChange};
use crate::index;
use crate::index::{AbsorbOutcome, ContentSig, Entry, EntryState, Head, HeadModel, Index};
use crate::order;
use crate::order::Rank;
use crate::path::RelPath;
use crate::pathmap;
use crate::pathmap::PathMap;
use vstd::prelude::*;

verus! {

/// What the tree should look like at a path after an [`Action::Apply`].
#[derive(Debug, Clone, Copy, PartialEq, Eq)]
pub enum Expectation {
    /// The file should exist with this content signature.
    Present(ContentSig),
    /// The file should not exist (a deletion was applied).
    Absent,
}

/// Two expectations match: the same signature up to modification time, or both
/// absent.
pub open spec fn matching(a: Expectation, b: Expectation) -> bool {
    match (a, b) {
        (Expectation::Present(x), Expectation::Present(y)) => index::same_sig(x, y),
        (Expectation::Absent, Expectation::Absent) => true,
        _ => false,
    }
}

fn expectations_match(a: Expectation, b: Expectation) -> (r: bool)
    ensures
        r == matching(a, b),
{
    match (a, b) {
        (Expectation::Present(x), Expectation::Present(y)) => x == y,
        (Expectation::Absent, Expectation::Absent) => true,
        _ => false,
    }
}

/// An input to the engine's transition function.
#[derive(Debug, Clone)]
pub enum Event {
    /// A watcher change or a startup-scan difference observed locally.
    Local(LocalChange),
    /// A change received from the peer replica (carries its vector clock).
    Remote(RemoteChange),
    /// The peer's full index, exchanged at connect for reconciliation.
    PeerIndex(Index),
}

/// An event as a mathematical value.
pub ghost enum EventModel {
    /// A local change.
    Local { path: Seq<char>, kind: ChangeKind },
    /// A change from the peer.
    Remote { path: Seq<char>, kind: ChangeKind, version: Seq<(u64, u64)> },
    /// The peer's index.
    PeerIndex { peer: Map<Seq<char>, Seq<HeadModel>> },
}

impl View for Event {
    type V = EventModel;

    open spec fn view(&self) -> EventModel {
        match *self {
            Event::Local(c) => EventModel::Local { path: c.path@, kind: c.kind },
            Event::Remote(c) => EventModel::Remote {
                path: c.path@,
                kind: c.kind,
                version: c.version@,
            },
            Event::PeerIndex(i) => EventModel::PeerIndex { peer: i@ },
        }
    }
}

/// A side effect that the engine asks for; it never performs one itself.
#[derive(Debug, Clone, PartialEq, Eq)]
pub enum Action {
    /// Ship this change (with its clock) to the peer.
    Send(RemoteChange),
    /// Make the local tree match `target` at `path`.
    Apply {
        /// The path to bring into line.
        path: RelPath,
        /// The desired state at that path.
        target: Expectation,
    },
    /// Record this version in history.
    RecordVersion {
        /// The path whose version is being recorded.
        path: RelPath,
        /// The state recorded at this version.
        state: EntryState,
        /// The vector clock of this version.
        version: VectorClock,
    },
    /// Concurrent versions were resolved; the loser is to be kept in history.
    ConflictResolved {
        /// The contested path.
        path: RelPath,
        /// The state that won the deterministic tiebreak.
        winner: EntryState,
        /// The winner head's vector clock.
        winner_version: VectorClock,
        /// The state that lost (kept as a sibling head, never dropped).
        loser: EntryState,
        /// The loser head's vector clock.
        loser_version: VectorClock,
        /// Whether the first-contact rule (the later modification time) was
        /// used.
        adopted: bool,
    },
}

/// An action as a mathematical value.
#[verifier::ext_equal]
pub ghost enum ActionModel {
    /// Ship a change to the peer.
    Send { path: Seq<char>, kind: ChangeKind, version: Seq<(u64, u64)> },
    /// Bring the tree into line.
    Apply { path: Seq<char>, target: Expectation },
    /// Record a version.
    RecordVersion { path: Seq<char>, state: EntryState, version: Seq<(u64, u64)> },
    /// A conflict was resolved.
    ConflictResolved {
        path: Seq<char>,
        winner: EntryState,
        winner_version: Seq<(u64, u64)>,
        loser: EntryState,
        loser_version: Seq<(u64, u64)>,
        adopted: bool,
    },
}

impl View for Action {
    type V = ActionModel;

    open spec fn view(&self) -> ActionModel {
        match *self {
            Action::Send(c) => ActionModel::Send {
                path: c.path@,
                kind: c.kind,
                version: c.version@,
            },
            Action::Apply { path, target } => ActionModel::Apply { path: path@, target },
            Action::RecordVersion { path, state, version } => ActionModel::RecordVersion {
                path: path@,
                state,
                version: version@,
            },
            Action::ConflictResolved {
                path,
                winner,
                winner_version,
                loser,
                loser_version,
                adopted,
            } => ActionModel::ConflictResolved {
                path: path@,
                winner,
                winner_version: winner_version@,
                loser,
                loser_version: loser_version@,
                adopted,
            },
        }
    }
}

/// The models of a sequence of actions.
pub open spec fn action_models(s: Seq<Action>) -> Seq<ActionModel> {
    Seq::new(s.len(), |i: int| s[i]@)
}

/// The state an index head takes on for a given change kind.
pub open spec fn kind_state(kind: ChangeKind) -> EntryState {
    match kind {
        ChangeKind::Modified(sig) => EntryState::Present(sig),
        ChangeKind::Removed => EntryState::Tombstone,
    }
}

/// The change kind that reproduces a given head state.
pub open spec fn state_kind(state: EntryState) -> ChangeKind {
    match state {
        EntryState::Present(sig) => ChangeKind::Modified(sig),
        EntryState::Tombstone => ChangeKind::Removed,
    }
}

/// The tree expectation that a state implies.
pub open spec fn state_target(state: EntryState) -> Expectation {
    match state {
        EntryState::Present(sig) => Expectation::Present(sig),
        EntryState::Tombstone => Expectation::Absent,
    }
}

pub(crate) fn state_from_kind(kind: &ChangeKind) -> (s: EntryState)
    ensures
        s == kind_state(*kind),
{
    match kind {
        ChangeKind::Modified(sig) => EntryState::Present(*sig),
        ChangeKind::Removed => EntryState::Tombstone,
    }
}

pub(crate) fn kind_from_state(state: EntryState) -> (k: ChangeKind)
    ensures
        k == state_kind(state),
{
    match state {
        EntryState::Present(sig) => ChangeKind::Modified(sig),
        EntryState::Tombstone => ChangeKind::Removed,
    }
}

fn expectation_from_state(state: EntryState) -> (e: Expectation)
    ensures
        e == state_target(state),
{
    match state {
        EntryState::Present(sig) => Expectation::Present(sig),
        EntryState::Tombstone => Expectation::Absent,
    }
}

// ---- the echo journal ------------------------------------------------------
/// The first position at or after `i` that matches `e`, or the length.
pub open spec fn first_match(list: Seq<Expectation>, e: Expectation, i: int) -> int
    decreases list.len() - i,
{
    if i >= list.len() {
        list.len() as int
    } else if matching(list[i], e) {
        i
    } else {
        first_match(list, e, i + 1)
    }
}

/// The writes at `path` that have been asked for and not yet seen.
pub open spec fn pending(echo: Map<Seq<char>, Seq<Expectation>>, path: Seq<char>) -> Seq<
    Expectation,
> {
    if echo.dom().contains(path) {
        echo[path]
    } else {
        seq![]
    }
}

/// A matching write at `path` is outstanding.
pub open spec fn expects(
    echo: Map<Seq<char>, Seq<Expectation>>,
    path: Seq<char>,
    e: Expectation,
) -> bool {
    first_match(pending(echo, path), e, 0) < pending(echo, path).len()
}

/// The journal with one more write at `path`.
pub open spec fn journalled(
    echo: Map<Seq<char>, Seq<Expectation>>,
    path: Seq<char>,
    e: Expectation,
) -> Map<Seq<char>, Seq<Expectation>> {
    echo.insert(path, pending(echo, path).push(e))
}

/// The journal with one matching write at `path` taken out.
pub open spec fn retired(
    echo: Map<Seq<char>, Seq<Expectation>>,
    path: Seq<char>,
    e: Expectation,
) -> Map<Seq<char>, Seq<Expectation>> {
    let list = pending(echo, path);
    let rest = list.update(first_match(list, e, 0), list.last()).drop_last();
    if rest.len() == 0 {
        echo.remove(path)
    } else {
        echo.insert(path, rest)
    }
}

/// What `first_match` returns.
pub proof fn first_match_spec(list: Seq<Expectation>, e: Expectation, i: int)
    requires
        0 <= i <= list.len(),
    ensures
        i <= first_match(list, e, i) <= list.len(),
        first_match(list, e, i) < list.len() ==> matching(list[first_match(list, e, i)], e),
        forall|j: int| i <= j < first_match(list, e, i) ==> !matching(#[trigger] list[j], e),
    decreases list.len() - i,
{
    if i < list.len() && !matching(list[i], e) {
        first_match_spec(list, e, i + 1);
    }
}

/// The position of the first expectation that matches.
fn position(list: &Vec<Expectation>, e: Expectation) -> (k: usize)
    ensures
        k == first_match(list@, e, 0),
        k <= list@.len(),
{
    let mut i: usize = 0;
    while i < list.len() && !expectations_match(list[i], e)
        invariant
            i <= list@.len(),
            first_match(list@, e, 0) == first_match(list@, e, i as int),
        decreases list@.len() - i,
    {
        i = i + 1;
    }
    i
}

/// The writes that the engine has asked for and not yet seen echoed.
#[derive(Debug)]
struct EchoJournal {
    outstanding: PathMap<Vec<Expectation>>,
}

/// The lists by their contents.
spec fn contents(m: Map<Seq<char>, Vec<Expectation>>) -> Map<Seq<char>, Seq<Expectation>> {
    Map::new(|p: Seq<char>| m.dom().contains(p), |p: Seq<char>| m[p]@)
}

impl EchoJournal {
    /// A copy of the journal.
    fn copy(&self) -> (c: Self)
        ensures
            c.model() == self.model(),
    {
        let n: usize = self.outstanding.len();
        let ghost l = self.outstanding.listing();
        let mut c = EchoJournal::new();
        let mut i: usize = 0;
        proof {
            assert(l.take(0) =~= Seq::<(Seq<char>, Vec<Expectation>)>::empty());
            assert(contents(pathmap::to_map(l.take(0))) =~= c.model());
        }
        while i < n
            invariant
                i <= n,
                n == l.len(),
                pathmap::sorted(l),
                l == self.outstanding.listing(),
                c.model() == contents(pathmap::to_map(l.take(i as int))),
            decreases n - i,
        {
            let path: RelPath = self.outstanding.key(i).clone();
            let from = self.outstanding.value(i);
            let mut list: Vec<Expectation> = Vec::new();
            let mut k: usize = 0;
            while k < from.len()
                invariant
                    k <= from@.len(),
                    list@ == from@.take(k as int),
                decreases from@.len() - k,
            {
                list.push(from[k]);
                k = k + 1;
                assert(list@ =~= from@.take(k as int));
            }
            assert(list@ =~= from@);
            let ghost before = c.model();
            let ghost copied = list@;
            let _ = c.outstanding.insert(path, list);
            i = i + 1;
            proof {
                let t = l.take(i as int);
                assert(pathmap::sorted(t));
                pathmap::drop_last_map(t);
                pathmap::listed(t, i - 1);
                assert(t.drop_last() =~= l.take(i - 1));
                assert(c.model() =~= before.insert(l[i - 1].0, copied));
                assert(c.model() =~= contents(pathmap::to_map(t)));
            }
        }
        assert(l.take(i as int) =~= l);
        c
    }
}

impl EchoJournal {
    spec fn model(&self) -> Map<Seq<char>, Seq<Expectation>> {
        contents(self.outstanding@)
    }

    fn new() -> (j: Self)
        ensures
            j.model() == Map::<Seq<char>, Seq<Expectation>>::empty(),
    {
        let j = EchoJournal { outstanding: PathMap::new() };
        assert(j.model() =~= Map::<Seq<char>, Seq<Expectation>>::empty());
        j
    }

    /// Record that a local event matching `target` is expected at `path`.
    fn journal(&mut self, path: RelPath, target: Expectation)
        ensures
            final(self).model() == journalled(old(self).model(), path@, target),
    {
        let ghost p = path@;
        let mut list: Vec<Expectation> = match self.outstanding.remove(&path) {
            Some(l) => l,
            None => Vec::new(),
        };
        list.push(target);
        let _ = self.outstanding.insert(path, list);
        assert(self.model() =~= journalled(old(self).model(), p, target));
    }

    /// Whether a matching write is outstanding at `path`.
    fn contains(&self, path: &RelPath, observed: &Expectation) -> (b: bool)
        ensures
            b == expects(self.model(), path@, *observed),
    {
        match self.outstanding.get(path) {
            Some(list) => position(list, *observed) < list.len(),
            None => false,
        }
    }

    /// Retire one outstanding write matching `observed` at `path`; whether
    /// there was one.
    fn retire(&mut self, path: &RelPath, observed: Expectation) -> (b: bool)
        ensures
            b == expects(old(self).model(), path@, observed),
            final(self).model() == if b {
                retired(old(self).model(), path@, observed)
            } else {
                old(self).model()
            },
    {
        if !self.contains(path, &observed) {
            return false;
        }
        let mut list: Vec<Expectation> = match self.outstanding.remove(path) {
            Some(l) => l,
            None => Vec::new(),
        };
        let pos: usize = position(&list, observed);
        let _ = list.swap_remove(pos);
        if list.len() > 0 {
            let p: RelPath = path.clone();
            let _ = self.outstanding.insert(p, list);
        }
        assert(self.model() =~= retired(old(self).model(), path@, observed));
        true
    }
}

// ---- the transition function ----------------------------------------------
/// The engine's state as a mathematical value.
#[verifier::ext_equal]
pub ghost struct EngineModel {
    /// The replica that mints local versions.
    pub replica: u64,
    /// The heads of every path.
    pub index: Map<Seq<char>, Seq<HeadModel>>,
    /// The writes asked for and not yet seen echoed.
    pub echo: Map<Seq<char>, Seq<Expectation>>,
}

/// A state and the actions that led to it.
pub type Step = (EngineModel, Seq<ActionModel>);

/// The clock that lists the counters of `m`.
pub open spec fn clock_of(m: Map<u64, u64>) -> Seq<(u64, u64)> {
    choose|s: Seq<(u64, u64)>| clock::is_clock(s) && #[trigger] clock::counts(s) == m
}

/// The counters behind all the heads at `path`.
pub open spec fn context_at(m: EngineModel, path: Seq<char>) -> Map<u64, u64> {
    if m.index.dom().contains(path) {
        index::context(m.index[path])
    } else {
        Map::empty()
    }
}

/// The engine's own counter at `path`.
pub open spec fn own_count(m: EngineModel, path: Seq<char>) -> u64 {
    if context_at(m, path).dom().contains(m.replica) {
        context_at(m, path)[m.replica]
    } else {
        0
    }
}

/// The version that the next local edit at `path` is stamped with: everything
/// known of the path, and one more local event.
pub open spec fn next_version(m: EngineModel, path: Seq<char>) -> Seq<(u64, u64)> {
    clock_of(context_at(m, path).insert(m.replica, (own_count(m, path) + 1) as u64))
}

/// Whether a local change is news: not an echo, and not what the winner already
/// shows. Removing a path that was never seen is no news.
pub open spec fn is_news(m: EngineModel, path: Seq<char>, kind: ChangeKind) -> bool {
    &&& !expects(m.echo, path, state_target(kind_state(kind)))
    &&& if m.index.dom().contains(path) {
        !index::same_state(index::winner_of(m.index[path]).state, kind_state(kind))
    } else {
        kind is Modified
    }
}

/// What a local change does.
pub open spec fn local_step(m: EngineModel, path: Seq<char>, kind: ChangeKind) -> Step {
    let target = state_target(kind_state(kind));
    if expects(m.echo, path, target) {
        (EngineModel { echo: retired(m.echo, path, target), ..m }, seq![])
    } else if !is_news(m, path, kind) {
        (m, seq![])
    } else {
        let version = next_version(m, path);
        let state = kind_state(kind);
        (
            EngineModel {
                index: m.index.insert(path, seq![HeadModel { version, state }]),
                ..m
            },
            seq![
                ActionModel::Send { path, kind, version },
                ActionModel::RecordVersion { path, state, version },
            ],
        )
    }
}

/// The action that brings the tree to `state` at `path`, if it is due.
pub open spec fn apply_actions(due: bool, path: Seq<char>, state: EntryState) -> Seq<ActionModel> {
    if due {
        seq![ActionModel::Apply { path, target: state_target(state) }]
    } else {
        seq![]
    }
}

/// The journal after that action.
pub open spec fn apply_echo(
    due: bool,
    echo: Map<Seq<char>, Seq<Expectation>>,
    path: Seq<char>,
    state: EntryState,
) -> Map<Seq<char>, Seq<Expectation>> {
    if due {
        journalled(echo, path, state_target(state))
    } else {
        echo
    }
}

/// The head is not the winner (up to modification time).
pub open spec fn is_loser(h: HeadModel, w: HeadModel) -> bool {
    !(h.version == w.version && index::same_state(h.state, w.state))
}

/// One conflict action per head that lost, in the order of the heads.
pub open spec fn conflict_actions(
    path: Seq<char>,
    heads: Seq<HeadModel>,
    w: HeadModel,
    adopted: bool,
) -> Seq<ActionModel>
    decreases heads.len(),
{
    if heads.len() == 0 {
        seq![]
    } else {
        let rest = conflict_actions(path, heads.drop_last(), w, adopted);
        let h = heads.last();
        if is_loser(h, w) {
            rest.push(
                ActionModel::ConflictResolved {
                    path,
                    winner: w.state,
                    winner_version: w.version,
                    loser: h.state,
                    loser_version: h.version,
                    adopted,
                },
            )
        } else {
            rest
        }
    }
}

/// The action that records a version, if it is due.
pub open spec fn record_actions(due: bool, path: Seq<char>, h: HeadModel) -> Seq<ActionModel> {
    if due {
        seq![ActionModel::RecordVersion { path, state: h.state, version: h.version }]
    } else {
        seq![]
    }
}

/// What the arrival of one version from the peer does.
pub open spec fn remote_step(m: EngineModel, path: Seq<char>, h: HeadModel) -> Step {
    if !m.index.dom().contains(path) {
        let due = h.state is Present;
        (
            EngineModel {
                index: m.index.insert(path, seq![h]),
                echo: apply_echo(due, m.echo, path, h.state),
                ..m
            },
            apply_actions(due, path, h.state) + record_actions(true, path, h),
        )
    } else {
        let heads = m.index[path];
        let after = index::absorbed(heads, h);
        let w = index::winner_of(after);
        match index::outcome(heads, h) {
            AbsorbOutcome::AlreadyKnown => (m, seq![]),
            AbsorbOutcome::Absorbed { winner_changed, new_conflict, novel_content } => (
                EngineModel {
                    index: m.index.insert(path, after),
                    echo: apply_echo(winner_changed, m.echo, path, w.state),
                    ..m
                },
                apply_actions(winner_changed, path, w.state) + (if new_conflict {
                    conflict_actions(path, after, w, index::adoption(after))
                } else {
                    seq![]
                }) + record_actions(novel_content, path, h),
            ),
        }
    }
}

/// What the arrival of several versions of one path does.
pub open spec fn remote_steps(m: EngineModel, path: Seq<char>, hs: Seq<HeadModel>) -> Step
    decreases hs.len(),
{
    if hs.len() == 0 {
        (m, seq![])
    } else {
        let done = remote_steps(m, path, hs.drop_last());
        let next = remote_step(done.0, path, hs.last());
        (next.0, done.1 + next.1)
    }
}

/// One send action per head that no head of the peer covers.
pub open spec fn send_actions(
    path: Seq<char>,
    heads: Seq<HeadModel>,
    peer: Seq<HeadModel>,
) -> Seq<ActionModel>
    decreases heads.len(),
{
    if heads.len() == 0 {
        seq![]
    } else {
        let rest = send_actions(path, heads.drop_last(), peer);
        let h = heads.last();
        if index::knows(peer, h.version) {
            rest
        } else {
            rest.push(ActionModel::Send { path, kind: state_kind(h.state), version: h.version })
        }
    }
}

/// What the peer has at `path`: nothing where it never saw the path.
pub open spec fn peer_heads(peer: Map<Seq<char>, Seq<HeadModel>>, path: Seq<char>) -> Seq<
    HeadModel,
> {
    if peer.dom().contains(path) {
        peer[path]
    } else {
        seq![]
    }
}

/// Reconciling one path: take in what the peer has, then ship what it lacks.
pub open spec fn path_step(
    m: EngineModel,
    peer: Map<Seq<char>, Seq<HeadModel>>,
    path: Seq<char>,
) -> Step {
    let theirs = peer_heads(peer, path);
    let took = remote_steps(m, path, theirs);
    (
        took.0,
        took.1 + (if took.0.index.dom().contains(path) {
            send_actions(path, took.0.index[path], theirs)
        } else {
            seq![]
        }),
    )
}

/// Reconciling the paths in order.
pub open spec fn path_steps(
    m: EngineModel,
    peer: Map<Seq<char>, Seq<HeadModel>>,
    paths: Seq<Seq<char>>,
) -> Step
    decreases paths.len(),
{
    if paths.len() == 0 {
        (m, seq![])
    } else {
        let done = path_steps(m, peer, paths.drop_last());
        let next = path_step(done.0, peer, paths.last());
        (next.0, done.1 + next.1)
    }
}

/// Paths in strictly ascending order.
pub open spec fn ascending_paths(ps: Seq<Seq<char>>) -> bool {
    forall|i: int, j: int|
        0 <= i < j < ps.len() ==> order::text_lt(#[trigger] ps[i], #[trigger] ps[j])
}

/// The paths of `s` in ascending order.
pub open spec fn in_order(s: Set<Seq<char>>) -> Seq<Seq<char>> {
    choose|ps: Seq<Seq<char>>| ascending_paths(ps) && #[trigger] ps.to_set() == s
}

/// What the arrival of the peer's index does: every path of either side is
/// reconciled, in ascending order.
pub open spec fn peer_step(m: EngineModel, peer: Map<Seq<char>, Seq<HeadModel>>) -> Step {
    path_steps(m, peer, in_order(m.index.dom().union(peer.dom())))
}

/// What an event does.
pub open spec fn step(m: EngineModel, e: EventModel) -> Step {
    match e {
        EventModel::Local { path, kind } => local_step(m, path, kind),
        EventModel::Remote { path, kind, version } => remote_step(
            m,
            path,
            HeadModel { version, state: kind_state(kind) },
        ),
        EventModel::PeerIndex { peer } => peer_step(m, peer),
    }
}

/// Every indexed path has at least one head.
pub open spec fn inhabited(idx: Map<Seq<char>, Seq<HeadModel>>) -> bool {
    forall|p: Seq<char>| #[trigger] idx.dom().contains(p) ==> idx[p].len() > 0
}

/// The pure sync state machine for one replica.
#[derive(Debug)]
pub struct Engine {
    replica: ReplicaId,
    index: Index,
    echo: EchoJournal,
}

impl Clone for Engine {
    fn clone(&self) -> (c: Self)
        ensures
            c@ == self@,
    {
        Engine { replica: self.replica, index: self.index.clone(), echo: self.echo.copy() }
    }
}

impl View for Engine {
    type V = EngineModel;

    closed spec fn view(&self) -> EngineModel {
        EngineModel { replica: self.replica.0, index: self.index@, echo: self.echo.model() }
    }
}

/// The clock that lists given counters is unique.
pub proof fn clock_of_counts(s: Seq<(u64, u64)>, m: Map<u64, u64>)
    requires
        clock::is_clock(s),
        clock::counts(s) == m,
    ensures
        clock_of(m) == s,
{
    let c = clock_of(m);
    assert(clock::is_clock(c) && clock::counts(c) == m);
    clock::counts_determine_clock(c, s);
}

/// The ascending listing of a set of paths is unique.
pub proof fn in_order_unique(a: Seq<Seq<char>>, b: Seq<Seq<char>>)
    requires
        ascending_paths(a),
        ascending_paths(b),
        a.to_set() == b.to_set(),
    ensures
        a == b,
{
    let x = Seq::new(a.len(), |i: int| (a[i], ()));
    let y = Seq::new(b.len(), |i: int| (b[i], ()));
    assert(pathmap::sorted(x));
    assert(pathmap::sorted(y));
    assert forall|p: Seq<char>| pathmap::lists(x, p) == a.to_set().contains(p) by {
        if a.to_set().contains(p) {
            let i = choose|i: int| 0 <= i < a.len() && a[i] == p;
            assert(x[i].0 == p);
        }
    }
    assert forall|p: Seq<char>| pathmap::lists(y, p) == b.to_set().contains(p) by {
        if b.to_set().contains(p) {
            let i = choose|i: int| 0 <= i < b.len() && b[i] == p;
            assert(y[i].0 == p);
        }
    }
    assert(pathmap::to_map(x) =~= pathmap::to_map(y));
    pathmap::map_determines_listing(x, y);
    assert forall|i: int| 0 <= i < a.len() implies a[i] == b[i] by {
        assert(x[i].0 == y[i].0);
    }
    assert(a =~= b);
}

/// The texts of the paths.
spec fn path_texts(ps: Seq<RelPath>) -> Seq<Seq<char>> {
    Seq::new(ps.len(), |i: int| ps[i]@)
}

/// The paths of both indices, ascending, each once.
fn union_paths(a: &Index, b: &Index) -> (ps: Vec<RelPath>)
    ensures
        path_texts(ps@) == in_order(a@.dom().union(b@.dom())),
        forall|p: Seq<char>|
            path_texts(ps@).contains(p) <==> (a@.dom().contains(p) || b@.dom().contains(p)),
{
    let xs = a.iter();
    let ys = b.iter();
    let ghost la = a.listing();
    let ghost lb = b.listing();
    let mut ps: Vec<RelPath> = Vec::new();
    let mut i: usize = 0;
    let mut j: usize = 0;
    while i < xs.len() || j < ys.len()
        invariant
            i <= xs@.len(),
            j <= ys@.len(),
            xs@.len() == la.len(),
            ys@.len() == lb.len(),
            pathmap::sorted(la),
            pathmap::sorted(lb),
            forall|k: int| 0 <= k < xs@.len() ==> (#[trigger] xs@[k]).0@ == la[k].0,
            forall|k: int| 0 <= k < ys@.len() ==> (#[trigger] ys@[k]).0@ == lb[k].0,
            ascending_paths(path_texts(ps@)),
            forall|k: int, x: int|
                0 <= k < ps@.len() && i <= x < la.len() ==> order::text_lt(
                    #[trigger] path_texts(ps@)[k],
                    (#[trigger] la[x]).0,
                ),
            forall|k: int, x: int|
                0 <= k < ps@.len() && j <= x < lb.len() ==> order::text_lt(
                    #[trigger] path_texts(ps@)[k],
                    (#[trigger] lb[x]).0,
                ),
            forall|k: int|
                0 <= k < ps@.len() ==> pathmap::lists(la, #[trigger] path_texts(ps@)[k])
                    || pathmap::lists(lb, path_texts(ps@)[k]),
            forall|x: int| 0 <= x < i ==> path_texts(ps@).contains((#[trigger] la[x]).0),
            forall|x: int| 0 <= x < j ==> path_texts(ps@).contains((#[trigger] lb[x]).0),
        decreases xs@.len() - i + ys@.len() - j,
    {
        let take_left: bool;
        let take_right: bool;
        if i >= xs.len() {
            take_left = false;
            take_right = true;
        } else if j >= ys.len() {
            take_left = true;
            take_right = false;
        } else {
            match order::compare_text(xs[i].0.as_str(), ys[j].0.as_str()) {
                Rank::Less => {
                    take_left = true;
                    take_right = false;
                },
                Rank::Greater => {
                    take_left = false;
                    take_right = true;
                },
                Rank::Same => {
                    take_left = true;
                    take_right = true;
                },
            }
        }
        let p: RelPath = if take_left { xs[i].0.clone() } else { ys[j].0.clone() };
        let ghost before = path_texts(ps@);
        let ghost t = p@;
        ps.push(p);
        proof {
            let after = path_texts(ps@);
            assert(after =~= before.push(t));
            assert(pathmap::lists(la, t) || pathmap::lists(lb, t)) by {
                if take_left {
                    assert(la[i as int].0 == t);
                } else {
                    assert(lb[j as int].0 == t);
                }
            }
            assert forall|k: int| 0 <= k < before.len() implies #[trigger] after[k]
                == before[k] by {}
            assert(after[before.len() as int] == t);
            assert forall|q: Seq<char>| before.contains(q) implies after.contains(q) by {
                let k = choose|k: int| 0 <= k < before.len() && before[k] == q;
                assert(after[k] == q);
            }
            assert(after.contains(t));
            let ni = if take_left { i + 1 } else { i as int };
            let nj = if take_right { j + 1 } else { j as int };
            assert forall|k: int, x: int|
                0 <= k < after.len() && ni <= x < la.len() implies order::text_lt(
                #[trigger] after[k],
                (#[trigger] la[x]).0,
            ) by {
                if k < before.len() {
                    assert(order::text_lt(before[k], la[x].0));
                } else if take_left {
                    assert(order::text_lt(la[i as int].0, la[x].0));
                } else {
                    if x > i {
                        assert(order::text_lt(la[i as int].0, la[x].0));
                        order::text_order(t, la[i as int].0, la[x].0);
                    }
                }
            }
            assert forall|k: int, x: int|
                0 <= k < after.len() && nj <= x < lb.len() implies order::text_lt(
                #[trigger] after[k],
                (#[trigger] lb[x]).0,
            ) by {
                if k < before.len() {
                    assert(order::text_lt(before[k], lb[x].0));
                } else if take_right {
                    assert(order::text_lt(lb[j as int].0, lb[x].0));
                } else {
                    if x > j {
                        assert(order::text_lt(lb[j as int].0, lb[x].0));
                        order::text_order(t, lb[j as int].0, lb[x].0);
                    }
                }
            }
        }
        if take_left {
            i = i + 1;
        }
        if take_right {
            j = j + 1;
        }
    }
    proof {
        let ts = path_texts(ps@);
        let dom = a@.dom().union(b@.dom());
        assert forall|p: Seq<char>| ts.to_set().contains(p) <==> dom.contains(p) by {
            if ts.to_set().contains(p) {
                let k = choose|k: int| 0 <= k < ts.len() && ts[k] == p;
                assert(pathmap::lists(la, ts[k]) || pathmap::lists(lb, ts[k]));
            }
            if a@.dom().contains(p) {
                let x = choose|x: int| 0 <= x < la.len() && #[trigger] la[x].0 == p;
                assert(ts.contains(la[x].0));
            }
            if b@.dom().contains(p) {
                let x = choose|x: int| 0 <= x < lb.len() && #[trigger] lb[x].0 == p;
                assert(ts.contains(lb[x].0));
            }
        }
        assert(ts.to_set() =~= dom);
        in_order_unique(ts, in_order(dom));
    }
    ps
}

impl Engine {
    /// Every path that the engine knows has a head.
    pub open spec fn wf(&self) -> bool {
        inhabited(self@.index)
    }

    /// An engine for `replica` that starts from `index` (empty on a fresh
    /// project, or the persisted one on restart).
    pub fn new(replica: ReplicaId, index: Index) -> (e: Self)
        ensures
            e@.replica == replica.0,
            e@.index == index@,
            e@.echo == Map::<Seq<char>, Seq<Expectation>>::empty(),
    {
        Engine { replica, index, echo: EchoJournal::new() }
    }

    /// This engine's replica id.
    pub fn replica(&self) -> (r: ReplicaId)
        ensures
            r.0 == self@.replica,
    {
        self.replica
    }

    /// The engine's authoritative view of the tree.
    pub fn index(&self) -> (i: &Index)
        ensures
            i@ == self@.index,
    {
        &self.index
    }

    /// Whether the engine asked for a write at `path` that matches `observed`
    /// and has not seen its echo yet. Retires nothing.
    pub fn is_expected_echo(&self, path: &RelPath, observed: &Expectation) -> (b: bool)
        ensures
            b == expects(self@.echo, path@, *observed),
    {
        self.echo.contains(path, observed)
    }

    /// Advance the state machine by one event and return the side effects to
    /// perform.
    ///
    /// A local change that is news mints a version, for which the engine's own
    /// counter at that path must have room.
    pub fn handle(&mut self, event: Event) -> (actions: Vec<Action>)
        requires
            old(self).wf(),
            event@ matches EventModel::Local { path, kind } ==> is_news(
                old(self)@,
                path,
                kind,
            ) ==> own_count(old(self)@, path) < u64::MAX,
        ensures
            final(self).wf(),
            final(self)@ == step(old(self)@, event@).0,
            action_models(actions@) == step(old(self)@, event@).1,
    {
        match event {
            Event::Local(change) => self.handle_local(change),
            Event::Remote(change) => self.handle_remote(change),
            Event::PeerIndex(remote) => self.handle_peer_index(&remote),
        }
    }

    // ---- local events ------------------------------------------------------
    fn handle_local(&mut self, change: LocalChange) -> (actions: Vec<Action>)
        requires
            old(self).wf(),
            is_news(old(self)@, change.path@, change.kind) ==> own_count(
                old(self)@,
                change.path@,
            ) < u64::MAX,
        ensures
            final(self).wf(),
            final(self)@ == local_step(old(self)@, change.path@, change.kind).0,
            action_models(actions@) == local_step(old(self)@, change.path@, change.kind).1,
    {
        let LocalChange { path, kind } = change;
        let target = expectation_from_state(state_from_kind(&kind));
        if self.echo.retire(&path, target) {
            let actions: Vec<Action> = Vec::new();
            assert(action_models(actions@) =~= Seq::<ActionModel>::empty());
            return actions;
        }
        match kind {
            ChangeKind::Modified(sig) => self.local_modified(path, sig),
            ChangeKind::Removed => self.local_removed(path),
        }
    }

    /// Mint the next version at `path` for `kind` and say so.
    fn mint(&mut self, path: RelPath, kind: ChangeKind) -> (actions: Vec<Action>)
        requires
            old(self).wf(),
            !expects(old(self)@.echo, path@, state_target(kind_state(kind))),
            is_news(old(self)@, path@, kind),
            own_count(old(self)@, path@) < u64::MAX,
        ensures
            final(self).wf(),
            final(self)@ == local_step(old(self)@, path@, kind).0,
            action_models(actions@) == local_step(old(self)@, path@, kind).1,
    {
        let mut version = match self.index.get(&path) {
            Some(entry) => entry.merged_clock(),
            None => VectorClock::new(),
        };
        let ghost merged = version@;
        let ghost m = self@;
        let ghost p = path@;
        proof {
            assert(clock::counts(merged) =~= context_at(m, p));
            assert(clock::count(merged, m.replica) == own_count(m, p)) by {
                assert(clock::counts(merged).dom().contains(m.replica) == clock::mentions(
                    merged,
                    m.replica,
                ));
                if clock::mentions(merged, m.replica) {
                    assert(clock::counts(merged)[m.replica] == clock::count(merged, m.replica));
                }
            }
        }
        version.tick(self.replica);
        proof {
            clock_of_counts(
                version@,
                context_at(m, p).insert(m.replica, (own_count(m, p) + 1) as u64),
            );
        }
        let state = state_from_kind(&kind);
        let _ = self.index.upsert(path.clone(), Entry::single(version.clone(), state));
        let mut actions: Vec<Action> = Vec::new();
        actions.push(
            Action::Send(RemoteChange { path: path.clone(), kind, version: version.clone() }),
        );
        actions.push(Action::RecordVersion { path, state, version });
        proof {
            assert(action_models(actions@) =~= local_step(m, p, kind).1);
            assert(self@ =~= local_step(m, p, kind).0);
        }
        actions
    }

    fn local_modified(&mut self, path: RelPath, sig: ContentSig) -> (actions: Vec<Action>)
        requires
            old(self).wf(),
            !expects(old(self)@.echo, path@, Expectation::Present(sig)),
            is_news(old(self)@, path@, ChangeKind::Modified(sig)) ==> own_count(
                old(self)@,
                path@,
            ) < u64::MAX,
        ensures
            final(self).wf(),
            final(self)@ == local_step(old(self)@, path@, ChangeKind::Modified(sig)).0,
            action_models(actions@) == local_step(
                old(self)@,
                path@,
                ChangeKind::Modified(sig),
            ).1,
    {
        match self.index.get(&path) {
            Some(entry) => {
                if index::states_equal(entry.winner().state, EntryState::Present(sig)) {
                    let actions: Vec<Action> = Vec::new();
                    assert(action_models(actions@) =~= Seq::<ActionModel>::empty());
                    return actions;
                }
            },
            None => {},
        }
        self.mint(path, ChangeKind::Modified(sig))
    }

    fn local_removed(&mut self, path: RelPath) -> (actions: Vec<Action>)
        requires
            old(self).wf(),
            !expects(old(self)@.echo, path@, Expectation::Absent),
            is_news(old(self)@, path@, ChangeKind::Removed) ==> own_count(old(self)@, path@)
                < u64::MAX,
        ensures
            final(self).wf(),
            final(self)@ == local_step(old(self)@, path@, ChangeKind::Removed).0,
            action_models(actions@) == local_step(old(self)@, path@, ChangeKind::Removed).1,
    {
        let news = match self.index.get(&path) {
            Some(entry) => !index::states_equal(entry.winner().state, EntryState::Tombstone),
            None => false,
        };
        if !news {
            let actions: Vec<Action> = Vec::new();
            assert(action_models(actions@) =~= Seq::<ActionModel>::empty());
            return actions;
        }
        self.mint(path, ChangeKind::Removed)
    }

    // ---- remote events -----------------------------------------------------
    fn handle_remote(&mut self, change: RemoteChange) -> (actions: Vec<Action>)
        requires
            old(self).wf(),
        ensures
            final(self).wf(),
            final(self)@ == step(
                old(self)@,
                (EventModel::Remote {
                    path: change.path@,
                    kind: change.kind,
                    version: change.version@,
                }),
            ).0,
            action_models(actions@) == step(
                old(self)@,
                (EventModel::Remote {
                    path: change.path@,
                    kind: change.kind,
                    version: change.version@,
                }),
            ).1,
    {
        let RemoteChange { path, kind, version } = change;
        let state = state_from_kind(&kind);
        self.absorb_remote(path, state, version)
    }

    /// Take in one version of `path` that came from the peer. Never asks for a
    /// send: the peer converges independently.
    fn absorb_remote(&mut self, path: RelPath, state: EntryState, version: VectorClock) -> (actions:
        Vec<Action>)
        requires
            old(self).wf(),
        ensures
            final(self).wf(),
            final(self)@ == remote_step(
                old(self)@,
                path@,
                (HeadModel { version: version@, state }),
            ).0,
            action_models(actions@) == remote_step(
                old(self)@,
                path@,
                (HeadModel { version: version@, state }),
            ).1,
    {
        let ghost m = self@;
        let ghost p = path@;
        let ghost h = HeadModel { version: version@, state };
        let mut entry = match self.index.get(&path) {
            Some(e) => e.clone(),
            None => {
                return self.remote_unseen(path, state, version);
            },
        };
        let ghost heads = entry@;
        match entry.absorb(version.clone(), state) {
            AbsorbOutcome::AlreadyKnown => {
                let actions: Vec<Action> = Vec::new();
                assert(action_models(actions@) =~= Seq::<ActionModel>::empty());
                actions
            },
            AbsorbOutcome::Absorbed { winner_changed, new_conflict, novel_content } => {
                let mut actions: Vec<Action> = Vec::new();
                let winner = entry.winner().clone();
                let ghost after = entry@;
                if winner_changed {
                    self.emit_apply(
                        &mut actions,
                        path.clone(),
                        expectation_from_state(winner.state),
                    );
                }
                assert(action_models(actions@) =~= apply_actions(
                    winner_changed,
                    p,
                    winner@.state,
                ));
                if new_conflict {
                    let adopted = entry.adoption_mode();
                    push_conflicts(&mut actions, &path, entry.heads(), &winner, adopted);
                }
                let ghost so_far = action_models(actions@);
                if novel_content {
                    actions.push(Action::RecordVersion { path: path.clone(), state, version });
                }
                proof {
                    assert(action_models(actions@) =~= so_far + record_actions(
                        novel_content,
                        p,
                        h,
                    ));
                    assert(action_models(actions@) =~= remote_step(m, p, h).1);
                }
                let _ = self.index.upsert(path, entry);
                assert(self@ =~= remote_step(m, p, h).0);
                actions
            },
        }
    }

    fn remote_unseen(&mut self, path: RelPath, state: EntryState, version: VectorClock) -> (actions:
        Vec<Action>)
        requires
            old(self).wf(),
            !old(self)@.index.dom().contains(path@),
        ensures
            final(self).wf(),
            final(self)@ == remote_step(
                old(self)@,
                path@,
                (HeadModel { version: version@, state }),
            ).0,
            action_models(actions@) == remote_step(
                old(self)@,
                path@,
                (HeadModel { version: version@, state }),
            ).1,
    {
        let ghost m = self@;
        let ghost p = path@;
        let ghost h = HeadModel { version: version@, state };
        let mut actions: Vec<Action> = Vec::new();
        let _ = self.index.upsert(path.clone(), Entry::single(version.clone(), state));
        // A tombstone for a path that was never seen leaves no file to delete.
        if let EntryState::Present(sig) = state {
            self.emit_apply(&mut actions, path.clone(), Expectation::Present(sig));
        }
        let ghost so_far = action_models(actions@);
        assert(so_far =~= apply_actions(state is Present, p, state));
        actions.push(Action::RecordVersion { path, state, version });
        proof {
            assert(action_models(actions@) =~= so_far + record_actions(true, p, h));
            assert(action_models(actions@) =~= remote_step(m, p, h).1);
            assert(self@ =~= remote_step(m, p, h).0);
        }
        actions
    }

    // ---- reconciliation ----------------------------------------------------
    fn handle_peer_index(&mut self, remote: &Index) -> (actions: Vec<Action>)
        requires
            old(self).wf(),
        ensures
            final(self).wf(),
            final(self)@ == peer_step(old(self)@, remote@).0,
            action_models(actions@) == peer_step(old(self)@, remote@).1,
    {
        let ghost m = self@;
        let paths = union_paths(&self.index, remote);
        let ghost ts = path_texts(paths@);
        let mut actions: Vec<Action> = Vec::new();
        let mut i: usize = 0;
        assert(ts.take(0) =~= Seq::<Seq<char>>::empty());
        assert(action_models(actions@) =~= Seq::<ActionModel>::empty());
        while i < paths.len()
            invariant
                i <= paths@.len(),
                ts == path_texts(paths@),
                self.wf(),
                self@ == path_steps(m, remote@, ts.take(i as int)).0,
                action_models(actions@) == path_steps(m, remote@, ts.take(i as int)).1,
            decreases paths@.len() - i,
        {
            let ghost before = self@;
            let ghost done = action_models(actions@);
            self.reconcile_path(&paths[i], remote, &mut actions);
            i = i + 1;
            proof {
                assert(ts.take(i as int).drop_last() =~= ts.take(i - 1));
                assert(ts.take(i as int).last() == paths@[i - 1]@);
            }
        }
        assert(ts.take(i as int) =~= ts);
        actions
    }

    /// Take in what the peer has at `path`, then ship what it lacks.
    fn reconcile_path(&mut self, path: &RelPath, remote: &Index, actions: &mut Vec<Action>)
        requires
            old(self).wf(),
        ensures
            final(self).wf(),
            final(self)@ == path_step(old(self)@, remote@, path@).0,
            action_models(final(actions)@) == action_models(old(actions)@) + path_step(
                old(self)@,
                remote@,
                path@,
            ).1,
    {
        let ghost m = self@;
        let ghost p = path@;
        let ghost theirs = peer_heads(remote@, p);
        let ghost start = action_models(actions@);
        let no_heads: Vec<Head> = Vec::new();
        let remote_heads: &[Head] = match remote.get(path) {
            Some(e) => e.heads(),
            None => no_heads.as_slice(),
        };
        proof {
            assert(index::models(remote_heads@) =~= theirs);
        }
        let mut i: usize = 0;
        assert(theirs.take(0) =~= Seq::<HeadModel>::empty());
        assert(action_models(actions@) =~= start + remote_steps(m, p, theirs.take(0)).1);
        while i < remote_heads.len()
            invariant
                i <= remote_heads@.len(),
                index::models(remote_heads@) == theirs,
                p == path@,
                self.wf(),
                self@ == remote_steps(m, p, theirs.take(i as int)).0,
                action_models(actions@) == start + remote_steps(m, p, theirs.take(i as int)).1,
            decreases remote_heads@.len() - i,
        {
            let head = &remote_heads[i];
            assert(head@ == theirs[i as int]);
            let mut more = self.absorb_remote(path.clone(), head.state, head.version.clone());
            let ghost got = action_models(more@);
            let ghost had = action_models(actions@);
            actions.append(&mut more);
            i = i + 1;
            proof {
                assert(theirs.take(i as int).drop_last() =~= theirs.take(i - 1));
                assert(action_models(actions@) =~= had + got);
                assert(action_models(actions@) =~= start + remote_steps(
                    m,
                    p,
                    theirs.take(i as int),
                ).1);
            }
        }
        proof {
            assert(theirs.take(i as int) =~= theirs);
        }
        match self.index.get(path) {
            Some(entry) => {
                push_sends(actions, path, entry.heads(), remote_heads);
                assert(action_models(actions@) =~= start + path_step(m, remote@, p).1);
            },
            None => {
                assert(action_models(actions@) =~= start + path_step(m, remote@, p).1);
            },
        }
    }

    /// Journal `target` at `path`, then ask for the write.
    fn emit_apply(&mut self, actions: &mut Vec<Action>, path: RelPath, target: Expectation)
        ensures
            final(self)@ == (EngineModel {
                echo: journalled(old(self)@.echo, path@, target),
                ..old(self)@
            }),
            action_models(final(actions)@) == action_models(old(actions)@).push(
                ActionModel::Apply { path: path@, target },
            ),
    {
        let ghost p = path@;
        let ghost had = action_models(actions@);
        self.echo.journal(path.clone(), target);
        actions.push(Action::Apply { path, target });
        assert(action_models(actions@) =~= had.push(ActionModel::Apply { path: p, target }));
    }
}

/// Whether two clocks list the same counters.
fn same_clock(a: &VectorClock, b: &VectorClock) -> (r: bool)
    ensures
        r == (a@ == b@),
{
    let xs = a.iter();
    let ys = b.iter();
    if xs.len() != ys.len() {
        return false;
    }
    let mut i: usize = 0;
    while i < xs.len()
        invariant
            i <= xs@.len(),
            xs@.len() == ys@.len(),
            xs@.len() == a@.len(),
            ys@.len() == b@.len(),
            forall|k: int| 0 <= k < xs@.len() ==> xs@[k] == (ReplicaId(a@[k].0), a@[k].1),
            forall|k: int| 0 <= k < ys@.len() ==> ys@[k] == (ReplicaId(b@[k].0), b@[k].1),
            forall|k: int| 0 <= k < i ==> a@[k] == b@[k],
        decreases xs@.len() - i,
    {
        if xs[i].0.0 != ys[i].0.0 || xs[i].1 != ys[i].1 {
            assert(a@[i as int] != b@[i as int]);
            return false;
        }
        i = i + 1;
    }
    assert(a@ =~= b@);
    true
}

/// One conflict action per head that lost.
fn push_conflicts(
    actions: &mut Vec<Action>,
    path: &RelPath,
    heads: &[Head],
    winner: &Head,
    adopted: bool,
)
    ensures
        action_models(final(actions)@) == action_models(old(actions)@) + conflict_actions(
            path@,
            index::models(heads@),
            winner@,
            adopted,
        ),
{
    let ghost start = action_models(actions@);
    let ghost hs = index::models(heads@);
    let mut i: usize = 0;
    assert(hs.take(0) =~= Seq::<HeadModel>::empty());
    assert(action_models(actions@) =~= start + conflict_actions(path@, hs.take(0), winner@, adopted));
    while i < heads.len()
        invariant
            i <= heads@.len(),
            hs == index::models(heads@),
            action_models(actions@) == start + conflict_actions(
                path@,
                hs.take(i as int),
                winner@,
                adopted,
            ),
        decreases heads@.len() - i,
    {
        let head = &heads[i];
        let ghost had = action_models(actions@);
        let is_winner = same_clock(&head.version, &winner.version) && index::states_equal(
            head.state,
            winner.state,
        );
        if !is_winner {
            actions.push(
                Action::ConflictResolved {
                    path: path.clone(),
                    winner: winner.state,
                    winner_version: winner.version.clone(),
                    loser: head.state,
                    loser_version: head.version.clone(),
                    adopted,
                },
            );
        }
        i = i + 1;
        proof {
            assert(hs.take(i as int).drop_last() =~= hs.take(i - 1));
            assert(hs.take(i as int).last() == head@);
            if !is_winner {
                assert(action_models(actions@) =~= had.push(actions@.last()@));
            }
            assert(action_models(actions@) =~= start + conflict_actions(
                path@,
                hs.take(i as int),
                winner@,
                adopted,
            ));
        }
    }
    assert(hs.take(i as int) =~= hs);
}

/// Whether one of `peer`'s heads dominates or equals `version`.
fn covered(peer: &[Head], version: &VectorClock) -> (b: bool)
    ensures
        b == index::knows(index::models(peer@), version@),
{
    let ghost hs = index::models(peer@);
    let mut i: usize = 0;
    while i < peer.len()
        invariant
            i <= peer@.len(),
            hs == index::models(peer@),
            forall|k: int| 0 <= k < i ==> !clock::leq(version@, (#[trigger] hs[k]).version),
        decreases peer@.len() - i,
    {
        let c = version.compare(&peer[i].version);
        assert(hs[i as int].version == peer@[i as int].version@);
        if matches!(c, Causality::Before) || matches!(c, Causality::Equal) {
            return true;
        }
        i = i + 1;
    }
    false
}

/// One send action per head that the peer does not cover.
fn push_sends(actions: &mut Vec<Action>, path: &RelPath, heads: &[Head], peer: &[Head])
    ensures
        action_models(final(actions)@) == action_models(old(actions)@) + send_actions(
            path@,
            index::models(heads@),
            index::models(peer@),
        ),
{
    let ghost start = action_models(actions@);
    let ghost hs = index::models(heads@);
    let ghost theirs = index::models(peer@);
    let mut i: usize = 0;
    assert(hs.take(0) =~= Seq::<HeadModel>::empty());
    assert(action_models(actions@) =~= start + send_actions(path@, hs.take(0), theirs));
    while i < heads.len()
        invariant
            i <= heads@.len(),
            hs == index::models(heads@),
            theirs == index::models(peer@),
            action_models(actions@) == start + send_actions(path@, hs.take(i as int), theirs),
        decreases heads@.len() - i,
    {
        let head = &heads[i];
        let ghost had = action_models(actions@);
        let known = covered(peer, &head.version);
        if !known {
            actions.push(
                Action::Send(
                    RemoteChange {
                        path: path.clone(),
                        kind: kind_from_state(head.state),
                        version: head.version.clone(),
                    },
                ),
            );
        }
        i = i + 1;
        proof {
            assert(hs.take(i as int).drop_last() =~= hs.take(i - 1));
            assert(hs.take(i as int).last() == head@);
            if !known {
                assert(action_models(actions@) =~= had.push(actions@.last()@));
            }
            assert(action_models(actions@) =~= start + send_actions(
                path@,
                hs.take(i as int),
                theirs,
            ));
        }
    }
    assert(hs.take(i as int) =~= hs);
}

} // verus!
