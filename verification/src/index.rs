//! The index model: the engine's authoritative view of the tree.
//!
//! An [`Index`] maps every [`RelPath`] to an [`Entry`], a set of concurrent
//! [`Head`]s. Each head is one version of the path: a vector clock and the
//! state at that version. Deleted files stay as tombstone heads, so deletions
//! propagate and delete-against-edit conflicts remain detectable.
//!
//! [`Entry::absorb`] adds a version and discards the heads that it causally
//! dominates; what is left after any number of deliveries is the set of
//! causally maximal versions, whatever order they arrived in. The
//! [`Entry::winner`] is a function of that set alone.

use crate::bytes;
use crate::clock;
use crate::clock::{Causality, VectorClock};
use crate::order;
use crate::order::Rank;
use crate::path::RelPath;
use crate::pathmap;
use crate::pathmap::PathMap;
use vstd::prelude::*;

verus! {

/// A 32-byte content hash (BLAKE3), an opaque identity token.
#[derive(Debug, Clone, Copy, PartialEq, Eq, PartialOrd, Ord, Hash)]
pub struct ContentHash(pub [u8; 32]);

impl ContentHash {
    /// The hash as 64 lower-case hexadecimal characters.
    pub fn to_hex(&self) -> (t: String)
        ensures
            t@ == bytes::hex_text(self.0@),
    {
        bytes::hex_of(self.0.as_slice())
    }

    /// Whether two hashes are the same.
    pub fn same(&self, other: &ContentHash) -> (r: bool)
        ensures
            r == (*self == *other),
    {
        let r = bytes::same_bytes(self.0.as_slice(), other.0.as_slice());
        assert(r ==> self.0 =~= other.0);
        r
    }
}

/// The identity of a file's content: its hash, its byte length and whether it
/// is executable, plus its modification time as carried metadata.
///
/// `mtime_ms` is no part of the identity: `==` ignores it, and so does the
/// canonical encoding. It is consulted only when two trees meet for the first
/// time (see [`Entry::winner`]).
#[derive(Debug, Clone, Copy)]
pub struct ContentSig {
    /// Content hash of the file's bytes (independent of `exec_bit`).
    pub hash: ContentHash,
    /// Length of the file's content in bytes.
    pub size: u64,
    /// Whether the file's user-execute bit is set.
    pub exec_bit: bool,
    /// Modification time in milliseconds since the Unix epoch.
    pub mtime_ms: u64,
}

/// Two signatures name the same content, size and mode.
pub open spec fn same_sig(a: ContentSig, b: ContentSig) -> bool {
    a.hash == b.hash && a.size == b.size && a.exec_bit == b.exec_bit
}

impl PartialEq for ContentSig {
    fn eq(&self, other: &Self) -> (r: bool) {
        self.hash.same(&other.hash) && self.size == other.size && self.exec_bit == other.exec_bit
    }
}

impl vstd::std_specs::cmp::PartialEqSpecImpl for ContentSig {
    open spec fn obeys_eq_spec() -> bool {
        true
    }

    open spec fn eq_spec(&self, other: &Self) -> bool {
        same_sig(*self, *other)
    }
}

impl Eq for ContentSig {

}

/// The state of an indexed path at one version.
#[derive(Debug, Clone, Copy, PartialEq, Eq)]
pub enum EntryState {
    /// The file exists with the given content signature.
    Present(ContentSig),
    /// The file has been deleted; the entry is retained as a tombstone.
    Tombstone,
}

/// Two states are the same up to modification time.
pub open spec fn same_state(a: EntryState, b: EntryState) -> bool {
    match (a, b) {
        (EntryState::Present(x), EntryState::Present(y)) => same_sig(x, y),
        (EntryState::Tombstone, EntryState::Tombstone) => true,
        _ => false,
    }
}

/// Whether two states are the same up to modification time.
pub fn states_equal(a: EntryState, b: EntryState) -> (r: bool)
    ensures
        r == same_state(a, b),
{
    match (a, b) {
        (EntryState::Present(x), EntryState::Present(y)) => x == y,
        (EntryState::Tombstone, EntryState::Tombstone) => true,
        _ => false,
    }
}

/// Two states carry the same bytes and the same execute bit, or are both
/// tombstones.
pub open spec fn same_content(a: EntryState, b: EntryState) -> bool {
    match (a, b) {
        (EntryState::Present(x), EntryState::Present(y)) => x.hash == y.hash && x.exec_bit == y.exec_bit,
        (EntryState::Tombstone, EntryState::Tombstone) => true,
        _ => false,
    }
}

fn contents_equal(a: EntryState, b: EntryState) -> (r: bool)
    ensures
        r == same_content(a, b),
{
    match (a, b) {
        (EntryState::Present(x), EntryState::Present(y)) => x.hash.same(&y.hash) && x.exec_bit
            == y.exec_bit,
        (EntryState::Tombstone, EntryState::Tombstone) => true,
        _ => false,
    }
}

/// One concurrent version of a path: its clock and its state.
#[derive(Debug, PartialEq, Eq)]
pub struct Head {
    /// The vector-clock version of this head.
    pub version: VectorClock,
    /// The state (present with content, or tombstone) at this version.
    pub state: EntryState,
}

/// A head as a mathematical value.
#[verifier::ext_equal]
pub ghost struct HeadModel {
    /// The listed counters of the version.
    pub version: Seq<(u64, u64)>,
    /// The state at this version.
    pub state: EntryState,
}

impl View for Head {
    type V = HeadModel;

    open spec fn view(&self) -> HeadModel {
        HeadModel { version: self.version@, state: self.state }
    }
}

impl Clone for Head {
    fn clone(&self) -> (h: Self)
        ensures
            h@ == self@,
    {
        Head { version: self.version.clone(), state: self.state }
    }
}

/// The models of a sequence of heads.
pub open spec fn models(s: Seq<Head>) -> Seq<HeadModel> {
    Seq::new(s.len(), |i: int| s[i]@)
}

/// The `(replica, counter)` pairs as little-endian bytes.
pub open spec fn clock_bytes(s: Seq<(u64, u64)>) -> Seq<u8>
    decreases s.len(),
{
    if s.len() == 0 {
        seq![]
    } else {
        clock_bytes(s.drop_last()) + bytes::le64(s.last().0) + bytes::le64(s.last().1)
    }
}

/// One tag byte, and for a present file its hash, size and execute byte.
pub open spec fn state_bytes(state: EntryState) -> Seq<u8> {
    match state {
        EntryState::Tombstone => seq![0u8],
        EntryState::Present(sig) => seq![1u8] + sig.hash.0@ + bytes::le64(sig.size) + seq![
            if sig.exec_bit {
                1u8
            } else {
                0u8
            },
        ],
    }
}

/// The canonical bytes of a head: the clock length, the clock pairs, the state.
pub open spec fn head_bytes(h: HeadModel) -> Seq<u8> {
    bytes::le64(h.version.len() as u64) + clock_bytes(h.version) + state_bytes(h.state)
}

/// Append the clock's pairs to `out`.
fn push_clock(version: &VectorClock, out: &mut Vec<u8>)
    ensures
        final(out)@ == old(out)@ + clock_bytes(version@),
{
    let pairs = version.iter();
    let ghost s = version@;
    let ghost start = out@;
    let mut i: usize = 0;
    assert(s.take(0) =~= Seq::<(u64, u64)>::empty());
    assert(out@ =~= start + clock_bytes(s.take(0)));
    while i < pairs.len()
        invariant
            i <= pairs@.len(),
            pairs@.len() == s.len(),
            forall|j: int| 0 <= j < pairs@.len() ==> pairs@[j] == (clock::ReplicaId(s[j].0), s[j].1),
            out@ == start + clock_bytes(s.take(i as int)),
        decreases pairs@.len() - i,
    {
        bytes::push_le64(out, pairs[i].0.0);
        bytes::push_le64(out, pairs[i].1);
        i = i + 1;
        assert(s.take(i as int).drop_last() =~= s.take(i - 1));
        assert(out@ =~= start + clock_bytes(s.take(i as int)));
    }
    assert(s.take(i as int) =~= s);
}

impl Head {
    /// Append this head's canonical bytes to `out`.
    fn encode(&self, out: &mut Vec<u8>)
        ensures
            final(out)@ == old(out)@ + head_bytes(self@),
    {
        let ghost start = out@;
        let n: usize = self.version.iter().len();
        bytes::push_le64(out, n as u64);
        push_clock(&self.version, out);
        match self.state {
            EntryState::Tombstone => {
                out.push(0);
            },
            EntryState::Present(sig) => {
                out.push(1);
                bytes::push_bytes(out, sig.hash.0.as_slice());
                bytes::push_le64(out, sig.size);
                if sig.exec_bit {
                    out.push(1);
                } else {
                    out.push(0);
                }
            },
        }
        assert(out@ =~= start + head_bytes(self@));
    }

    /// The canonical bytes as a standalone key (for sorting head sets).
    fn sort_key(&self) -> (key: Vec<u8>)
        ensures
            key@ == head_bytes(self@),
    {
        let mut key: Vec<u8> = Vec::new();
        self.encode(&mut key);
        assert(key@ =~= head_bytes(self@));
        key
    }
}

/// No replica has a positive counter in both clocks.
pub open spec fn disjoint(a: Seq<(u64, u64)>, b: Seq<(u64, u64)>) -> bool {
    forall|r: u64| !(#[trigger] clock::count(a, r) > 0 && #[trigger] clock::count(b, r) > 0)
}

/// Whether no replica has a positive counter in both clocks.
fn disjoint_support(a: &VectorClock, b: &VectorClock) -> (r: bool)
    ensures
        r == disjoint(a@, b@),
{
    let pairs = a.iter();
    let mut i: usize = 0;
    while i < pairs.len()
        invariant
            i <= pairs@.len(),
            pairs@.len() == a@.len(),
            forall|j: int|
                0 <= j < pairs@.len() ==> pairs@[j] == (clock::ReplicaId(a@[j].0), a@[j].1),
            clock::is_clock(a@),
            forall|j: int|
                0 <= j < i && (#[trigger] a@[j]).1 > 0 ==> clock::count(b@, a@[j].0) == 0,
        decreases pairs@.len() - i,
    {
        if pairs[i].1 > 0 && b.get(pairs[i].0) > 0 {
            proof {
                clock::count_at(a@, i as int);
            }
            assert(clock::count(b@, a@[i as int].0) > 0);
            return false;
        }
        i = i + 1;
    }
    assert forall|r: u64| !(#[trigger] clock::count(a@, r) > 0 && #[trigger] clock::count(b@, r)
        > 0) by {
        if clock::mentions(a@, r) {
            let k = choose|k: int| 0 <= k < a@.len() && #[trigger] a@[k].0 == r;
            clock::count_at(a@, k);
        }
    }
    true
}

/// At least two heads, and no replica has a positive counter in two of them: the
/// first contact of two trees, where the clocks carry no ordering information.
pub open spec fn adoption(heads: Seq<HeadModel>) -> bool {
    heads.len() >= 2 && forall|i: int, j: int|
        0 <= i < j < heads.len() ==> disjoint(
            (#[trigger] heads[i]).version,
            (#[trigger] heads[j]).version,
        )
}

/// What a head is ranked by when the winner is chosen, most significant first:
/// present above tombstone; in adoption mode the modification time; the hash;
/// executable above not; the clock's bytes.
pub open spec fn rank(h: HeadModel, adopting: bool) -> Seq<int> {
    match h.state {
        EntryState::Tombstone => seq![0int] + order::byte_key(clock_bytes(h.version)),
        EntryState::Present(sig) => seq![
            1int,
            if adopting {
                sig.mtime_ms as int
            } else {
                0
            },
        ] + (order::byte_key(sig.hash.0@) + (seq![
            if sig.exec_bit {
                1int
            } else {
                0
            },
        ] + order::byte_key(clock_bytes(h.version)))),
    }
}

/// The head at `i` outranks all before it and none after it outranks it.
pub open spec fn is_winner(heads: Seq<HeadModel>, i: int) -> bool {
    &&& 0 <= i < heads.len()
    &&& forall|j: int|
        0 <= j < heads.len() ==> !order::lex_lt(
            rank(heads[i], adoption(heads)),
            rank(#[trigger] heads[j], adoption(heads)),
        )
    &&& forall|j: int|
        0 <= j < i ==> order::lex_lt(
            rank(#[trigger] heads[j], adoption(heads)),
            rank(heads[i], adoption(heads)),
        )
}

/// The head that is materialised on disk: the highest ranked one.
pub open spec fn winner_of(heads: Seq<HeadModel>) -> HeadModel {
    heads[choose|i: int| is_winner(heads, i)]
}

/// There is only one winner.
pub proof fn winner_unique(heads: Seq<HeadModel>, i: int, j: int)
    requires
        is_winner(heads, i),
        is_winner(heads, j),
    ensures
        i == j,
{
    let a = rank(heads[i], adoption(heads));
    let b = rank(heads[j], adoption(heads));
    if i < j {
        assert(order::lex_lt(a, b));
    } else if j < i {
        assert(order::lex_lt(b, a));
    }
}

/// How `a` ranks against `b`.
fn compare_heads(a: &Head, b: &Head, adopting: bool) -> (r: Rank)
    ensures
        r is Less <==> order::lex_lt(rank(a@, adopting), rank(b@, adopting)),
        r is Greater <==> order::lex_lt(rank(b@, adopting), rank(a@, adopting)),
        r is Same <==> rank(a@, adopting) == rank(b@, adopting),
{
    let mut ka: Vec<u8> = Vec::new();
    push_clock(&a.version, &mut ka);
    let mut kb: Vec<u8> = Vec::new();
    push_clock(&b.version, &mut kb);
    let by_clock = order::compare_bytes(ka.as_slice(), kb.as_slice());
    let ghost ca = order::byte_key(clock_bytes(a@.version));
    let ghost cb = order::byte_key(clock_bytes(b@.version));
    proof {
        assert(ka@ =~= clock_bytes(a@.version));
        assert(kb@ =~= clock_bytes(b@.version));
        if ca == cb {
            order::byte_key_injective(ka@, kb@);
        }
    }
    match (a.state, b.state) {
        (EntryState::Present(sa), EntryState::Present(sb)) => {
            let by_hash = order::compare_bytes(sa.hash.0.as_slice(), sb.hash.0.as_slice());
            let ma: u64 = if adopting { sa.mtime_ms } else { 0 };
            let mb: u64 = if adopting { sb.mtime_ms } else { 0 };
            proof {
                let ha = order::byte_key(sa.hash.0@);
                let hb = order::byte_key(sb.hash.0@);
                if ha == hb {
                    order::byte_key_injective(sa.hash.0@, sb.hash.0@);
                }
                let ea = seq![if sa.exec_bit { 1int } else { 0 }];
                let eb = seq![if sb.exec_bit { 1int } else { 0 }];
                rank_chain(seq![1int, ma as int], seq![1int, mb as int], ha, hb, ea, eb, ca, cb);
                rank_chain(seq![1int, mb as int], seq![1int, ma as int], hb, ha, eb, ea, cb, ca);
                pair_order(1, ma as int, 1, mb as int);
                pair_order(1, mb as int, 1, ma as int);
                single_order(ea[0], eb[0]);
                single_order(eb[0], ea[0]);
            }
            if ma < mb {
                return Rank::Less;
            }
            if ma > mb {
                return Rank::Greater;
            }
            match by_hash {
                Rank::Less => {
                    return Rank::Less;
                },
                Rank::Greater => {
                    return Rank::Greater;
                },
                Rank::Same => {},
            }
            if sa.exec_bit && !sb.exec_bit {
                return Rank::Greater;
            }
            if !sa.exec_bit && sb.exec_bit {
                return Rank::Less;
            }
            by_clock
        },
        (EntryState::Present(sa), EntryState::Tombstone) => {
            proof {
                let x = rank(a@, adopting);
                let y = rank(b@, adopting);
                assert(x[0] == 1 && y[0] == 0);
                assert(order::lex_lt(y, x));
                order::lex_asymmetric(y, x);
            }
            Rank::Greater
        },
        (EntryState::Tombstone, EntryState::Present(sb)) => {
            proof {
                let x = rank(a@, adopting);
                let y = rank(b@, adopting);
                assert(x[0] == 0 && y[0] == 1);
                assert(order::lex_lt(x, y));
                order::lex_asymmetric(x, y);
            }
            Rank::Less
        },
        (EntryState::Tombstone, EntryState::Tombstone) => {
            proof {
                order::lex_concat(seq![0int], seq![0int], ca, cb);
                order::lex_concat(seq![0int], seq![0int], cb, ca);
                order::lex_irreflexive(seq![0int]);
                if rank(a@, adopting) == rank(b@, adopting) {
                    order::lex_irreflexive(rank(a@, adopting));
                }
            }
            by_clock
        },
    }
}

proof fn single_order(x: int, y: int)
    ensures
        order::lex_lt(seq![x], seq![y]) <==> x < y,
        seq![x] == seq![y] <==> x == y,
{
    let a = seq![x];
    let b = seq![y];
    assert(a[0] == x && b[0] == y);
    assert(order::lex_from(a, b, 1) == false);
}

proof fn pair_order(x0: int, x1: int, y0: int, y1: int)
    ensures
        order::lex_lt(seq![x0, x1], seq![y0, y1]) <==> (x0 < y0 || (x0 == y0 && x1 < y1)),
        seq![x0, x1] == seq![y0, y1] <==> (x0 == y0 && x1 == y1),
{
    let a = seq![x0, x1];
    let b = seq![y0, y1];
    assert(a[0] == x0 && b[0] == y0 && a[1] == x1 && b[1] == y1);
    assert(order::lex_from(a, b, 2) == false);
    assert(order::lex_from(a, b, 1) == (x1 < y1));
    if x0 == y0 && x1 == y1 {
        assert(a =~= b);
    }
}

proof fn rank_chain(
    ma: Seq<int>,
    mb: Seq<int>,
    ha: Seq<int>,
    hb: Seq<int>,
    ea: Seq<int>,
    eb: Seq<int>,
    ca: Seq<int>,
    cb: Seq<int>,
)
    requires
        ma.len() == mb.len(),
        ha.len() == hb.len(),
        ea.len() == eb.len(),
    ensures
        order::lex_lt(ma + (ha + (ea + ca)), mb + (hb + (eb + cb))) <==> (order::lex_lt(ma, mb) || (
        ma == mb && (order::lex_lt(ha, hb) || (ha == hb && (order::lex_lt(ea, eb) || (ea == eb
            && order::lex_lt(ca, cb))))))),
        ma + (ha + (ea + ca)) == mb + (hb + (eb + cb)) <==> ma == mb && ha == hb && ea == eb && ca
            == cb,
{
    order::lex_concat(ea, eb, ca, cb);
    order::lex_concat(ha, hb, ea + ca, eb + cb);
    order::lex_concat(ma, mb, ha + (ea + ca), hb + (eb + cb));
    if ma + (ha + (ea + ca)) == mb + (hb + (eb + cb)) {
        split_ints(ma, mb, ha + (ea + ca), hb + (eb + cb));
        split_ints(ha, hb, ea + ca, eb + cb);
        split_ints(ea, eb, ca, cb);
    }
}

proof fn split_ints(a: Seq<int>, b: Seq<int>, r: Seq<int>, t: Seq<int>)
    requires
        a + r == b + t,
        a.len() == b.len(),
    ensures
        a == b,
        r == t,
{
    assert(a =~= (a + r).take(a.len() as int));
    assert(b =~= (b + t).take(b.len() as int));
    assert(r =~= (a + r).skip(a.len() as int));
    assert(t =~= (b + t).skip(b.len() as int));
}

/// What [`Entry::absorb`] did with an incoming version.
#[derive(Debug, Clone, Copy, PartialEq, Eq, Structural)]
pub enum AbsorbOutcome {
    /// The version was already dominated by (or equal to) an existing head:
    /// nothing changed.
    AlreadyKnown,
    /// The version was integrated into the head set.
    Absorbed {
        /// The winner's state changed: the file on disk must follow.
        winner_changed: bool,
        /// One head became two or more with differing content.
        new_conflict: bool,
        /// The absorbed content was not among the heads before.
        novel_content: bool,
    },
}

/// `h` placed behind the last head whose canonical bytes do not come after its
/// own.
pub open spec fn insert_head(s: Seq<HeadModel>, h: HeadModel) -> Seq<HeadModel>
    decreases s.len(),
{
    if s.len() == 0 {
        seq![h]
    } else if order::bytes_lt(head_bytes(h), head_bytes(s.last())) {
        insert_head(s.drop_last(), h).push(s.last())
    } else {
        s.push(h)
    }
}

/// The heads in order of their canonical bytes, equal ones in their old order.
pub open spec fn sort_heads(s: Seq<HeadModel>) -> Seq<HeadModel>
    decreases s.len(),
{
    if s.len() == 0 {
        seq![]
    } else {
        insert_head(sort_heads(s.drop_last()), s.last())
    }
}

/// Some head dominates or equals `version`.
pub open spec fn knows(heads: Seq<HeadModel>, version: Seq<(u64, u64)>) -> bool {
    exists|i: int| 0 <= i < heads.len() && clock::leq(version, (#[trigger] heads[i]).version)
}

/// The heads that `version` does not strictly dominate.
pub open spec fn survivors(heads: Seq<HeadModel>, version: Seq<(u64, u64)>) -> Seq<HeadModel>
    decreases heads.len(),
{
    if heads.len() == 0 {
        seq![]
    } else {
        let rest = survivors(heads.drop_last(), version);
        if clock::before(heads.last().version, version) {
            rest
        } else {
            rest.push(heads.last())
        }
    }
}

/// The head set after `h` arrived.
pub open spec fn absorbed(heads: Seq<HeadModel>, h: HeadModel) -> Seq<HeadModel> {
    if knows(heads, h.version) {
        heads
    } else {
        sort_heads(survivors(heads, h.version).push(h))
    }
}

/// Two heads differ in content: a conflict that a user sees.
pub open spec fn conflicted(heads: Seq<HeadModel>) -> bool {
    exists|i: int|
        0 <= i < heads.len() && !same_content((#[trigger] heads[i]).state, heads[0].state)
}

/// Some head already carries the content of `state`.
pub open spec fn has_content(heads: Seq<HeadModel>, state: EntryState) -> bool {
    exists|i: int| 0 <= i < heads.len() && same_content((#[trigger] heads[i]).state, state)
}

/// What absorbing `h` into `heads` reports.
pub open spec fn outcome(heads: Seq<HeadModel>, h: HeadModel) -> AbsorbOutcome {
    if knows(heads, h.version) {
        AbsorbOutcome::AlreadyKnown
    } else {
        let after = absorbed(heads, h);
        AbsorbOutcome::Absorbed {
            winner_changed: !same_state(winner_of(heads).state, winner_of(after).state),
            new_conflict: heads.len() == 1 && after.len() >= 2 && conflicted(after),
            novel_content: !has_content(heads, h.state),
        }
    }
}

/// Placing a head keeps the length plus one.
pub proof fn insert_head_len(s: Seq<HeadModel>, h: HeadModel)
    ensures
        insert_head(s, h).len() == s.len() + 1,
    decreases s.len(),
{
    if s.len() > 0 {
        insert_head_len(s.drop_last(), h);
    }
}

/// Sorting keeps the length.
pub proof fn sort_heads_len(s: Seq<HeadModel>)
    ensures
        sort_heads(s).len() == s.len(),
    decreases s.len(),
{
    if s.len() > 0 {
        sort_heads_len(s.drop_last());
        insert_head_len(sort_heads(s.drop_last()), s.last());
    }
}

/// Place `h` behind the last head whose key is not after its own.
fn place(v: &mut Vec<Head>, h: Head)
    ensures
        models(final(v)@) == insert_head(models(old(v)@), h@),
{
    let key = h.sort_key();
    let ghost start = v@;
    let ghost all = models(v@);
    let mut k: usize = v.len();
    proof {
        assert(all.take(k as int) =~= all);
        assert(all.skip(k as int) =~= Seq::<HeadModel>::empty());
        assert(insert_head(all, h@) =~= insert_head(all.take(k as int), h@) + all.skip(k as int));
    }
    while k > 0
        invariant
            k <= v@.len(),
            v@ == start,
            all == models(v@),
            key@ == head_bytes(h@),
            insert_head(all, h@) == insert_head(all.take(k as int), h@) + all.skip(k as int),
        ensures
            k <= v@.len(),
            v@ == start,
            k == 0 || !order::bytes_lt(head_bytes(h@), head_bytes(all[k - 1])),
            insert_head(all, h@) == insert_head(all.take(k as int), h@) + all.skip(k as int),
        decreases k,
    {
        let other = v[k - 1].sort_key();
        assert(other@ == head_bytes(all[k - 1]));
        let r = order::compare_bytes(key.as_slice(), other.as_slice());
        if !matches!(r, Rank::Less) {
            break;
        }
        proof {
            let t = all.take(k as int);
            assert(t.last() == all[k - 1]);
            assert(t.drop_last() =~= all.take(k - 1));
            assert(insert_head(t.drop_last(), h@).push(t.last()) + all.skip(k as int)
                =~= insert_head(all.take(k - 1), h@) + all.skip(k - 1));
        }
        k = k - 1;
    }
    let ghost hm = h@;
    v.insert(k, h);
    proof {
        let t = all.take(k as int);
        if k > 0 {
            assert(t.last() == all[k - 1]);
        }
        assert(insert_head(t, hm) =~= t.push(hm));
        assert(models(v@) =~= t.push(hm) + all.skip(k as int));
    }
}

/// An index entry: the set of concurrent heads of a path, in the order of their
/// canonical bytes.
#[derive(Debug, PartialEq, Eq)]
pub struct Entry {
    heads: Vec<Head>,
}

impl View for Entry {
    type V = Seq<HeadModel>;

    closed spec fn view(&self) -> Seq<HeadModel> {
        models(self.heads@)
    }
}

impl Clone for Entry {
    fn clone(&self) -> (e: Self)
        ensures
            e@ == self@,
    {
        let mut heads: Vec<Head> = Vec::new();
        let mut i: usize = 0;
        while i < self.heads.len()
            invariant
                i <= self.heads@.len(),
                models(heads@) == models(self.heads@).take(i as int),
            decreases self.heads@.len() - i,
        {
            let ghost before = models(heads@);
            heads.push(self.heads[i].clone());
            i = i + 1;
            assert(models(heads@) =~= before.push(self.heads@[i - 1]@));
            assert(models(heads@) =~= models(self.heads@).take(i as int));
        }
        assert(models(self.heads@).take(i as int) =~= models(self.heads@));
        Entry { heads }
    }
}

impl Entry {
    /// An entry with a single head: the shape after any local edit, and the
    /// starting shape for a freshly seen path.
    pub fn single(version: VectorClock, state: EntryState) -> (e: Self)
        ensures
            e@ == seq![(HeadModel { version: version@, state })],
    {
        let ghost h = HeadModel { version: version@, state };
        let mut heads: Vec<Head> = Vec::new();
        heads.push(Head { version, state });
        assert(models(heads@) =~= seq![h]);
        Entry { heads }
    }

    /// An entry with the given heads.
    pub(crate) fn from_heads(heads: Vec<Head>) -> (e: Self)
        ensures
            e@ == models(heads@),
    {
        Entry { heads }
    }

    /// The concurrent heads, in canonical order.
    pub fn heads(&self) -> (h: &[Head])
        ensures
            models(h@) == self@,
    {
        self.heads.as_slice()
    }

    /// The deterministically materialised winner: what exists on disk.
    ///
    /// A present head beats a tombstone. Between present heads the higher hash
    /// wins, then the executable one, then the larger clock encoding. In
    /// adoption mode the later modification time is asked first.
    pub fn winner(&self) -> (w: &Head)
        requires
            self@.len() > 0,
        ensures
            exists|i: int| is_winner(self@, i) && #[trigger] self@[i] == w@,
            w@ == winner_of(self@),
    {
        let adopting = self.adoption_mode();
        let ghost m = self@;
        let mut best: usize = 0;
        let mut i: usize = 1;
        proof {
            order::lex_irreflexive(rank(m[0], adopting));
        }
        while i < self.heads.len()
            invariant
                1 <= i <= self.heads@.len(),
                m == models(self.heads@),
                best < i,
                forall|j: int|
                    0 <= j < i ==> !order::lex_lt(
                        rank(m[best as int], adopting),
                        rank(#[trigger] m[j], adopting),
                    ),
                forall|j: int|
                    0 <= j < best ==> order::lex_lt(
                        rank(#[trigger] m[j], adopting),
                        rank(m[best as int], adopting),
                    ),
            decreases self.heads@.len() - i,
        {
            let r = compare_heads(&self.heads[i], &self.heads[best], adopting);
            proof {
                let x = rank(m[best as int], adopting);
                let y = rank(m[i as int], adopting);
                if r is Greater {
                    order::lex_asymmetric(x, y);
                    assert forall|j: int| 0 <= j < i implies order::lex_lt(
                        rank(#[trigger] m[j], adopting),
                        y,
                    ) by {
                        let z = rank(m[j], adopting);
                        order::lex_total(z, x);
                        if order::lex_lt(z, x) {
                            order::lex_transitive(z, x, y);
                        }
                    }
                    assert forall|j: int| 0 <= j < i + 1 implies !order::lex_lt(
                        y,
                        rank(#[trigger] m[j], adopting),
                    ) by {
                        if j < i {
                            order::lex_asymmetric(rank(m[j], adopting), y);
                        } else {
                            order::lex_irreflexive(y);
                        }
                    }
                }
            }
            if matches!(r, Rank::Greater) {
                best = i;
            }
            i = i + 1;
        }
        proof {
            assert(is_winner(m, best as int));
            let c = choose|k: int| is_winner(m, k);
            winner_unique(m, best as int, c);
            assert(m[best as int] == self.heads@[best as int]@);
        }
        &self.heads[best]
    }

    /// Whether this entry has two or more heads, and no replica has a positive
    /// counter in two of them: the first sync of two trees that were edited
    /// before they ever met.
    pub fn adoption_mode(&self) -> (b: bool)
        ensures
            b == adoption(self@),
    {
        let ghost m = self@;
        let n: usize = self.heads.len();
        if n < 2 {
            return false;
        }
        let mut i: usize = 0;
        while i < n
            invariant
                i <= n,
                n == self.heads@.len(),
                m == models(self.heads@),
                forall|x: int, y: int|
                    0 <= x < y < n && x < i ==> disjoint(
                        (#[trigger] m[x]).version,
                        (#[trigger] m[y]).version,
                    ),
            decreases n - i,
        {
            let mut j: usize = i + 1;
            while j < n
                invariant
                    i < n,
                    i + 1 <= j <= n,
                    n == self.heads@.len(),
                    m == models(self.heads@),
                    forall|y: int|
                        i < y < j ==> disjoint(m[i as int].version, (#[trigger] m[y]).version),
                decreases n - j,
            {
                let d = disjoint_support(&self.heads[i].version, &self.heads[j].version);
                assert(d == disjoint(m[i as int].version, m[j as int].version));
                if !d {
                    return false;
                }
                j = j + 1;
            }
            i = i + 1;
        }
        true
    }

    /// The merge of every head's clock: the causal context of the whole entry.
    pub fn merged_clock(&self) -> (c: VectorClock)
        ensures
            clock::is_clock(c@),
            clock::counts(c@) == context(self@),
    {
        let ghost m = self@;
        let mut c = VectorClock::new();
        let mut i: usize = 0;
        proof {
            assert(clock::is_clock(c@));
            assert(m.take(0) =~= Seq::<HeadModel>::empty());
            assert(clock::counts(c@) =~= context(m.take(0)));
        }
        while i < self.heads.len()
            invariant
                i <= self.heads@.len(),
                m == models(self.heads@),
                clock::is_clock(c@),
                clock::counts(c@) == context(m.take(i as int)),
            decreases self.heads@.len() - i,
        {
            let ghost before = c@;
            c.merge(&self.heads[i].version);
            i = i + 1;
            proof {
                let t = m.take(i as int);
                assert(t.drop_last() =~= m.take(i - 1));
                assert(t.last().version == self.heads@[i - 1].version@);
                context_step(before, t);
            }
        }
        assert(m.take(i as int) =~= m);
        c
    }

    /// Whether the head set holds two heads with differing content.
    fn heads_conflict(&self) -> (b: bool)
        ensures
            b == conflicted(self@),
    {
        let ghost m = self@;
        let mut i: usize = 0;
        while i < self.heads.len()
            invariant
                i <= self.heads@.len(),
                m == models(self.heads@),
                forall|j: int| 0 <= j < i ==> same_content((#[trigger] m[j]).state, m[0].state),
            decreases self.heads@.len() - i,
        {
            if !contents_equal(self.heads[i].state, self.heads[0].state) {
                assert(!same_content(m[i as int].state, m[0].state));
                return true;
            }
            i = i + 1;
        }
        false
    }

    /// Integrate `(version, state)` into the head set.
    ///
    /// A version that some head dominates or equals is a stale or duplicate
    /// delivery. Otherwise every head that `version` strictly dominates is
    /// dropped, the new head is added and the set is brought into canonical
    /// order.
    pub fn absorb(&mut self, version: VectorClock, state: EntryState) -> (o: AbsorbOutcome)
        requires
            old(self)@.len() > 0,
        ensures
            final(self)@ == absorbed(old(self)@, (HeadModel { version: version@, state })),
            o == outcome(old(self)@, (HeadModel { version: version@, state })),
            final(self)@.len() > 0,
    {
        let ghost m = self@;
        let ghost h = HeadModel { version: version@, state };
        let n: usize = self.heads.len();
        let mut novel_content = true;
        let mut i: usize = 0;
        while i < n
            invariant
                i <= n,
                n == self.heads@.len(),
                m == models(self.heads@),
                m == self@,
                self == old(self),
                h.version == version@,
                h.state == state,
                forall|j: int|
                    0 <= j < i ==> !clock::leq(h.version, (#[trigger] m[j]).version),
                novel_content == forall|j: int|
                    0 <= j < i ==> !same_content((#[trigger] m[j]).state, state),
                h == (HeadModel { version: version@, state }),
            decreases n - i,
        {
            let head = &self.heads[i];
            assert(head@ == m[i as int]);
            match head.version.compare(&version) {
                Causality::After | Causality::Equal => {
                    assert(knows(m, h.version));
                    return AbsorbOutcome::AlreadyKnown;
                },
                Causality::Before | Causality::Concurrent => {},
            }
            if contents_equal(head.state, state) {
                novel_content = false;
            }
            i = i + 1;
        }
        assert(!knows(m, h.version));
        assert(novel_content == !has_content(m, state));
        let winner_before = self.winner().state;
        let mut old_heads: Vec<Head> = Vec::new();
        std::mem::swap(&mut old_heads, &mut self.heads);
        let mut kept: Vec<Head> = Vec::new();
        let mut k: usize = 0;
        assert(m.take(0) =~= Seq::<HeadModel>::empty());
        assert(models(kept@) =~= sort_heads(survivors(m.take(0), h.version)));
        while k < old_heads.len()
            invariant
                k <= old_heads@.len(),
                m == models(old_heads@),
                h.version == version@,
                models(kept@) == sort_heads(survivors(m.take(k as int), h.version)),
            decreases old_heads@.len() - k,
        {
            let head = &old_heads[k];
            let c = head.version.compare(&version);
            proof {
                let t = m.take(k + 1);
                assert(t.drop_last() =~= m.take(k as int));
                assert(t.last() == head@);
                let rest = survivors(m.take(k as int), h.version);
                assert(rest.push(head@).drop_last() =~= rest);
            }
            if !matches!(c, Causality::Before) {
                place(&mut kept, head.clone());
            }
            k = k + 1;
        }
        proof {
            assert(m.take(k as int) =~= m);
            let rest = survivors(m, h.version);
            assert(rest.push(h).drop_last() =~= rest);
            sort_heads_len(rest.push(h));
        }
        place(&mut kept, Head { version, state });
        self.heads = kept;
        let after_len: usize = self.heads.len();
        let winner_changed = !states_equal(winner_before, self.winner().state);
        let new_conflict = n == 1 && after_len >= 2 && self.heads_conflict();
        AbsorbOutcome::Absorbed { winner_changed, new_conflict, novel_content }
    }
}

/// The pointwise maximum of all the heads' clocks.
pub open spec fn context(heads: Seq<HeadModel>) -> Map<u64, u64>
    decreases heads.len(),
{
    if heads.len() == 0 {
        Map::empty()
    } else {
        let rest = context(heads.drop_last());
        let last = clock::counts(heads.last().version);
        Map::new(
            |r: u64| rest.dom().contains(r) || last.dom().contains(r),
            |r: u64| clock::larger(
                if rest.dom().contains(r) { rest[r] } else { 0 },
                if last.dom().contains(r) { last[r] } else { 0 },
            ),
        )
    }
}

proof fn context_step(c: Seq<(u64, u64)>, heads: Seq<HeadModel>)
    requires
        heads.len() > 0,
        clock::counts(c) == context(heads.drop_last()),
    ensures
        clock::merged(c, heads.last().version) == context(heads),
{
    let rest = context(heads.drop_last());
    assert forall|r: u64| clock::count(c, r) == if rest.dom().contains(r) { rest[r] } else { 0 } by {
        assert(clock::counts(c).dom().contains(r) == clock::mentions(c, r));
        if clock::mentions(c, r) {
            assert(clock::counts(c)[r] == clock::count(c, r));
        }
    }
    assert(clock::merged(c, heads.last().version) =~= context(heads)) by {
        assert forall|r: u64| clock::counts(c).dom().contains(r) == clock::mentions(c, r) by {}
    }
}

/// The canonical bytes of the heads, one after the other.
pub open spec fn heads_bytes(heads: Seq<HeadModel>) -> Seq<u8>
    decreases heads.len(),
{
    if heads.len() == 0 {
        seq![]
    } else {
        heads_bytes(heads.drop_last()) + head_bytes(heads.last())
    }
}

/// The canonical record of one entry: the length of the path's UTF-8 bytes,
/// those bytes, the number of heads, the heads.
pub open spec fn entry_bytes(path: Seq<char>, heads: Seq<HeadModel>) -> Seq<u8> {
    bytes::le64(vstd::utf8::encode_utf8(path).len() as u64) + vstd::utf8::encode_utf8(path)
        + bytes::le64(heads.len() as u64) + heads_bytes(heads)
}

/// The records of all the entries, one after the other.
pub open spec fn index_bytes(l: Seq<(Seq<char>, Seq<HeadModel>)>) -> Seq<u8>
    decreases l.len(),
{
    if l.len() == 0 {
        seq![]
    } else {
        index_bytes(l.drop_last()) + entry_bytes(l.last().0, l.last().1)
    }
}

/// Entries with each one's value replaced by its heads.
pub open spec fn entry_models(l: Seq<(Seq<char>, Entry)>) -> Seq<(Seq<char>, Seq<HeadModel>)> {
    Seq::new(l.len(), |i: int| (l[i].0, l[i].1@))
}

/// The engine's map from path to [`Entry`], in ascending path order.
#[derive(Debug, PartialEq, Eq)]
pub struct Index {
    entries: PathMap<Entry>,
}

impl View for Index {
    type V = Map<Seq<char>, Seq<HeadModel>>;

    open spec fn view(&self) -> Map<Seq<char>, Seq<HeadModel>> {
        pathmap::to_map(self.listing())
    }
}

/// Replacing values by their heads carries over to the map.
proof fn entry_models_map(l: Seq<(Seq<char>, Entry)>)
    requires
        pathmap::sorted(l),
    ensures
        pathmap::sorted(entry_models(l)),
        pathmap::to_map(entry_models(l)).dom() == pathmap::to_map(l).dom(),
        forall|p: Seq<char>| #[trigger]
            pathmap::to_map(l).dom().contains(p) ==> pathmap::to_map(entry_models(l))[p]
                == pathmap::to_map(l)[p]@,
{
    let e = entry_models(l);
    assert(pathmap::sorted(e));
    assert forall|p: Seq<char>| pathmap::lists(e, p) == pathmap::lists(l, p) by {
        if pathmap::lists(l, p) {
            let i = choose|i: int| 0 <= i < l.len() && #[trigger] l[i].0 == p;
            assert(e[i].0 == p);
        }
        if pathmap::lists(e, p) {
            let i = choose|i: int| 0 <= i < e.len() && #[trigger] e[i].0 == p;
            assert(l[i].0 == p);
        }
    }
    assert(pathmap::to_map(e).dom() =~= pathmap::to_map(l).dom());
    assert forall|p: Seq<char>| #[trigger]
        pathmap::to_map(l).dom().contains(p) implies pathmap::to_map(e)[p] == pathmap::to_map(
        l,
    )[p]@ by {
        let i = choose|i: int| 0 <= i < l.len() && #[trigger] l[i].0 == p;
        pathmap::listed(l, i);
        pathmap::listed(e, i);
    }
}

impl Index {
    /// The entries in ascending path order, with their heads.
    pub closed spec fn listing(&self) -> Seq<(Seq<char>, Seq<HeadModel>)> {
        entry_models(self.entries.listing())
    }

    /// The map that lies underneath relates to the index as its view.
    proof fn view_facts(&self)
        requires
            pathmap::sorted(self.entries.listing()),
        ensures
            pathmap::sorted(self.listing()),
            self@.dom() == self.entries@.dom(),
            forall|p: Seq<char>| #[trigger]
                self.entries@.dom().contains(p) ==> self@[p] == self.entries@[p]@,
    {
        entry_models_map(self.entries.listing());
    }

    /// An empty index.
    pub fn new() -> (i: Self)
        ensures
            i@ == Map::<Seq<char>, Seq<HeadModel>>::empty(),
            i.listing() == Seq::<(Seq<char>, Seq<HeadModel>)>::empty(),
    {
        let i = Index { entries: PathMap::new() };
        assert(i.listing() =~= Seq::<(Seq<char>, Seq<HeadModel>)>::empty());
        assert(i@ =~= Map::<Seq<char>, Seq<HeadModel>>::empty());
        i
    }

    /// The entry for `path`, if any (tombstoned and conflicted ones count).
    pub fn get(&self, path: &RelPath) -> (e: Option<&Entry>)
        ensures
            match e {
                Some(x) => self@.dom().contains(path@) && x@ == self@[path@],
                None => !self@.dom().contains(path@),
            },
    {
        proof {
            use_type_invariant(&self.entries);
            self.view_facts();
        }
        self.entries.get(path)
    }

    /// Insert or replace the entry at `path`, returning the previous entry.
    pub fn upsert(&mut self, path: RelPath, entry: Entry) -> (prev: Option<Entry>)
        ensures
            final(self)@ == old(self)@.insert(path@, entry@),
            pathmap::sorted(final(self).listing()),
            match prev {
                Some(x) => old(self)@.dom().contains(path@) && x@ == old(self)@[path@],
                None => !old(self)@.dom().contains(path@),
            },
    {
        proof {
            use_type_invariant(&self.entries);
            self.view_facts();
        }
        let ghost p = path@;
        let ghost e = entry@;
        let prev = self.entries.insert(path, entry);
        proof {
            self.view_facts();
            assert(self@ =~= old(self)@.insert(p, e));
        }
        prev
    }

    /// The `(path, entry)` pairs in ascending path order.
    pub fn iter(&self) -> (pairs: Vec<(&RelPath, &Entry)>)
        ensures
            pathmap::sorted(self.listing()),
            pairs@.len() == self.listing().len(),
            forall|i: int|
                0 <= i < pairs@.len() ==> (#[trigger] pairs@[i]).0@ == self.listing()[i].0
                    && pairs@[i].1@ == self.listing()[i].1,
    {
        let n: usize = self.entries.len();
        proof {
            self.view_facts();
        }
        let mut pairs: Vec<(&RelPath, &Entry)> = Vec::new();
        let mut i: usize = 0;
        while i < n
            invariant
                i <= n,
                n == self.entries.listing().len(),
                self.listing() == entry_models(self.entries.listing()),
                pairs@.len() == i,
                forall|j: int|
                    0 <= j < i ==> (#[trigger] pairs@[j]).0@ == self.listing()[j].0
                        && pairs@[j].1@ == self.listing()[j].1,
            decreases n - i,
        {
            pairs.push((self.entries.key(i), self.entries.value(i)));
            i = i + 1;
        }
        pairs
    }

    /// Number of entries (present, tombstoned or conflicted).
    pub fn len(&self) -> (n: usize)
        ensures
            n == self.listing().len(),
            pathmap::sorted(self.listing()),
    {
        let n: usize = self.entries.len();
        proof {
            self.view_facts();
        }
        n
    }

    /// Whether the index has no entries.
    pub fn is_empty(&self) -> (b: bool)
        ensures
            b == (self.listing().len() == 0),
            b == (self@ == Map::<Seq<char>, Seq<HeadModel>>::empty()),
    {
        let b = self.len() == 0;
        proof {
            if b {
                assert(self@ =~= Map::<Seq<char>, Seq<HeadModel>>::empty());
            } else {
                pathmap::listed(self.listing(), 0);
            }
        }
        b
    }

    /// A deterministic byte serialization of the whole index: one record per
    /// entry in ascending path order.
    pub fn canonical_bytes(&self) -> (out: Vec<u8>)
        ensures
            out@ == index_bytes(self.listing()),
            pathmap::sorted(self.listing()),
    {
        let n: usize = self.len();
        let ghost l = self.listing();
        let mut out: Vec<u8> = Vec::new();
        let mut i: usize = 0;
        assert(l.take(0) =~= Seq::<(Seq<char>, Seq<HeadModel>)>::empty());
        while i < n
            invariant
                i <= n,
                n == l.len(),
                l == entry_models(self.entries.listing()),
                out@ == index_bytes(l.take(i as int)),
            decreases n - i,
        {
            let ghost start = out@;
            let path = self.entries.key(i);
            let entry = self.entries.value(i);
            let ghost hs = entry@;
            assert(path@ == l[i as int].0 && hs == l[i as int].1);
            let path_bytes = path.as_str().as_bytes();
            bytes::push_le64(&mut out, path_bytes.len() as u64);
            bytes::push_bytes(&mut out, path_bytes);
            let heads = entry.heads();
            bytes::push_le64(&mut out, heads.len() as u64);
            let ghost mid = out@;
            let mut k: usize = 0;
            assert(hs.take(0) =~= Seq::<HeadModel>::empty());
            assert(out@ =~= mid + heads_bytes(hs.take(0)));
            while k < heads.len()
                invariant
                    k <= heads@.len(),
                    hs == models(heads@),
                    out@ == mid + heads_bytes(hs.take(k as int)),
                decreases heads@.len() - k,
            {
                heads[k].encode(&mut out);
                k = k + 1;
                assert(hs.take(k as int).drop_last() =~= hs.take(k - 1));
                assert(out@ =~= mid + heads_bytes(hs.take(k as int)));
            }
            assert(hs.take(k as int) =~= hs);
            i = i + 1;
            assert(l.take(i as int).drop_last() =~= l.take(i - 1));
            assert(out@ =~= index_bytes(l.take(i as int)));
        }
        assert(l.take(i as int) =~= l);
        out
    }
}

impl Clone for Index {
    fn clone(&self) -> (c: Self)
        ensures
            c@ == self@,
            c.listing() == self.listing(),
    {
        let pairs = self.iter();
        let ghost l = self.listing();
        let mut c = Index::new();
        let mut i: usize = 0;
        assert(c@ =~= pathmap::to_map(l.take(0)));
        while i < pairs.len()
            invariant
                i <= pairs@.len(),
                pairs@.len() == l.len(),
                pathmap::sorted(l),
                forall|j: int|
                    0 <= j < pairs@.len() ==> (#[trigger] pairs@[j]).0@ == l[j].0 && pairs@[j].1@
                        == l[j].1,
                c@ == pathmap::to_map(l.take(i as int)),
            decreases pairs@.len() - i,
        {
            let (path, entry) = &pairs[i];
            let p: RelPath = (*path).clone();
            let e: Entry = (*entry).clone();
            let _ = c.upsert(p, e);
            i = i + 1;
            proof {
                let t = l.take(i as int);
                assert(pathmap::sorted(t));
                pathmap::drop_last_map(t);
                pathmap::listed(t, i - 1);
                assert(t.drop_last() =~= l.take(i - 1));
                assert(c@ =~= pathmap::to_map(t));
            }
        }
        let n: usize = c.len();
        proof {
            assert(l.take(i as int) =~= l);
            pathmap::map_determines_listing(c.listing(), l);
        }
        c
    }
}

impl Default for Index {
    fn default() -> (i: Self)
        ensures
            i@ == Map::<Seq<char>, Seq<HeadModel>>::empty(),
    {
        Index::new()
    }
}

} // verus!
