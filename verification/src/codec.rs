//! The wire form of clocks, entries, indices and changes.

use crate::bytes;
use crate::clock;
use crate::clock::VectorClock;
use crate::engine;
use crate::event::{ChangeKind, RemoteChange};
use crate::index;
use crate::index::{ContentHash, ContentSig, Entry, EntryState, Head, HeadModel, Index};
use crate::path;
use crate::path::RelPath;
use crate::pathmap;
use crate::wire;
use crate::wireerror::WireError;
use vstd::prelude::*;

verus! {

// ---- clocks ----------------------------------------------------------------
/// A replica and its counter.
pub open spec fn pair(p: (u64, u64)) -> Seq<u8> {
    wire::varint(p.0 as nat) + wire::varint(p.1 as nat)
}

/// Reading a replica and its counter.
pub open spec fn read_pair(s: Seq<u8>) -> Result<((u64, u64), Seq<u8>), WireError> {
    match wire::read_u64(s) {
        Err(e) => Err(e),
        Ok((a, r)) => match wire::read_u64(r) {
            Err(e) => Err(e),
            Ok((b, t)) => Ok(((a as u64, b as u64), t)),
        },
    }
}

/// A clock: the list of its pairs.
pub open spec fn version(s: Seq<(u64, u64)>) -> Seq<u8> {
    wire::list(|p: (u64, u64)| pair(p), s)
}

/// Reading a clock. The pairs are inserted one after the other.
pub open spec fn read_version(s: Seq<u8>) -> Result<(Seq<(u64, u64)>, Seq<u8>), WireError> {
    match wire::read_list(|r: Seq<u8>| read_pair(r), s) {
        Err(e) => Err(e),
        Ok((ps, t)) => Ok((engine::clock_of(clock::inserted(ps)), t)),
    }
}

/// Append a clock's wire form to `out`.
pub(crate) fn put_version(v: &VectorClock, out: &mut Vec<u8>)
    ensures
        final(out)@ == old(out)@ + version(v@),
        clock::is_clock(v@),
        v@.len() <= usize::MAX,
{
    let pairs = v.iter();
    let ghost s = v@;
    let ghost start = out@;
    let ghost w = |p: (u64, u64)| pair(p);
    let n = wire::put_number(pairs.len() as u64);
    bytes::push_bytes(out, n.as_slice());
    let mut i: usize = 0;
    assert(s.take(0) =~= Seq::<(u64, u64)>::empty());
    assert(out@ =~= start + wire::varint(s.len()) + wire::many(w, s.take(0)));
    while i < pairs.len()
        invariant
            i <= pairs@.len(),
            pairs@.len() == s.len(),
            w == |p: (u64, u64)| pair(p),
            forall|j: int| 0 <= j < pairs@.len() ==> pairs@[j] == (clock::ReplicaId(s[j].0), s[j].1),
            out@ == start + wire::varint(s.len()) + wire::many(w, s.take(i as int)),
        decreases pairs@.len() - i,
    {
        let a = wire::put_number(pairs[i].0.0);
        let b = wire::put_number(pairs[i].1);
        bytes::push_bytes(out, a.as_slice());
        bytes::push_bytes(out, b.as_slice());
        i = i + 1;
        proof {
            wire::many_push(w, s.take(i - 1), s[i - 1]);
            assert(s.take(i as int) =~= s.take(i - 1).push(s[i - 1]));
            assert(out@ =~= start + wire::varint(s.len()) + wire::many(w, s.take(i as int)));
        }
    }
    assert(s.take(i as int) =~= s);
    assert(out@ =~= start + version(s));
}

/// Read a clock off the front.
pub(crate) fn take_version(s: &[u8]) -> (r: Result<(VectorClock, &[u8]), WireError>)
    ensures
        match r {
            Ok((v, rest)) => read_version(s@) == Ok::<_, WireError>((v@, rest@)),
            Err(e) => read_version(s@) matches Err(f) && f == e,
        },
{
    let ghost rd = |r: Seq<u8>| read_pair(r);
    let (n, mut cur) = match wire::take_len(s) {
        Ok(x) => x,
        Err(e) => {
            return Err(e);
        },
    };
    let ghost first = cur@;
    let mut pairs: Vec<(u64, u64)> = Vec::new();
    let mut i: usize = 0;
    proof {
        let all = wire::read_many(rd, first, n as nat);
        assert(all == wire::prepend(Seq::<(u64, u64)>::empty(), all)) by {
            match all {
                Ok((ys, t)) => {
                    assert(Seq::<(u64, u64)>::empty() + ys =~= ys);
                },
                Err(_) => {},
            }
        }
    }
    while i < n
        invariant
            i <= n,
            rd == |r: Seq<u8>| read_pair(r),
            wire::read_len(s@) == Ok::<_, WireError>((n as nat, first)),
            wire::read_many(rd, first, n as nat) == wire::prepend(
                pairs@,
                wire::read_many(rd, cur@, (n - i) as nat),
            ),
        decreases n - i,
    {
        proof {
            wire::read_step(rd, cur@, (n - i) as nat, pairs@);
        }
        let (a, r1) = match wire::take_u64(cur) {
            Ok(x) => x,
            Err(e) => {
                assert(rd(cur@) matches Err(f) && f == e);
                return Err(e);
            },
        };
        let (b, r2) = match wire::take_u64(r1) {
            Ok(x) => x,
            Err(e) => {
                assert(rd(cur@) matches Err(f) && f == e);
                return Err(e);
            },
        };
        assert(rd(cur@) == Ok::<_, WireError>(((a, b), r2@)));
        pairs.push((a, b));
        cur = r2;
        i = i + 1;
    }
    assert(pairs@ + Seq::<(u64, u64)>::empty() =~= pairs@);
    let v = VectorClock::from_pairs(pairs.as_slice());
    proof {
        engine::clock_of_counts(v@, clock::inserted(pairs@));
    }
    Ok((v, cur))
}

/// A clock that was written can be read.
pub proof fn version_round_trip(s: Seq<(u64, u64)>, rest: Seq<u8>)
    requires
        clock::is_clock(s),
        s.len() <= usize::MAX,
    ensures
        read_version(version(s) + rest) == Ok::<_, WireError>((s, rest)),
{
    let w = |p: (u64, u64)| pair(p);
    let rd = |r: Seq<u8>| read_pair(r);
    assert forall|i: int, r: Seq<u8>| 0 <= i < s.len() implies #[trigger] rd(
        w(s[i]) + r,
    ) == Ok::<_, WireError>((s[i], r)) by {
        let b = wire::varint(s[i].1 as nat);
        wire::number_round_trip(s[i].0 as nat, b + r);
        wire::number_round_trip(s[i].1 as nat, r);
        assert(pair(s[i]) + r =~= wire::varint(s[i].0 as nat) + (b + r));
    }
    wire::list_round_trip(w, rd, s, rest);
    clock::inserted_clock(s);
    engine::clock_of_counts(s, clock::inserted(s));
}

// ---- signatures and states -------------------------------------------------
/// The array with the given 32 bytes.
pub open spec fn array_of(s: Seq<u8>) -> [u8; 32] {
    choose|a: [u8; 32]| #[trigger] a@ == s
}

/// An array is told by its bytes.
pub proof fn array_of_view(a: [u8; 32])
    ensures
        array_of(a@) == a,
{
    let c = array_of(a@);
    assert(c@ == a@);
    assert(c =~= a);
}

/// A content signature: hash, size, execute flag, modification time.
pub open spec fn sig(x: ContentSig) -> Seq<u8> {
    x.hash.0@ + (wire::varint(x.size as nat) + (wire::flag(x.exec_bit) + wire::varint(
        x.mtime_ms as nat,
    )))
}

/// Reading a content signature.
pub open spec fn read_sig(s: Seq<u8>) -> Result<(ContentSig, Seq<u8>), WireError> {
    match wire::read_hash(s) {
        Err(e) => Err(e),
        Ok((h, r1)) => match wire::read_u64(r1) {
            Err(e) => Err(e),
            Ok((size, r2)) => match wire::read_flag(r2) {
                Err(e) => Err(e),
                Ok((exec_bit, r3)) => match wire::read_u64(r3) {
                    Err(e) => Err(e),
                    Ok((mtime, r4)) => Ok(
                        (
                            ContentSig {
                                hash: ContentHash(array_of(h)),
                                size: size as u64,
                                exec_bit,
                                mtime_ms: mtime as u64,
                            },
                            r4,
                        ),
                    ),
                },
            },
        },
    }
}

/// A signature that was written can be read.
pub proof fn sig_round_trip(x: ContentSig, rest: Seq<u8>)
    ensures
        read_sig(sig(x) + rest) == Ok::<_, WireError>((x, rest)),
{
    let a = wire::varint(x.size as nat);
    let b = wire::flag(x.exec_bit);
    let c = wire::varint(x.mtime_ms as nat);
    assert(sig(x) + rest =~= x.hash.0@ + (a + (b + (c + rest))));
    wire::hash_round_trip(x.hash.0@, a + (b + (c + rest)));
    wire::number_round_trip(x.size as nat, b + (c + rest));
    wire::flag_round_trip(x.exec_bit, c + rest);
    wire::number_round_trip(x.mtime_ms as nat, rest);
    array_of_view(x.hash.0);
}

fn put_sig(x: &ContentSig, out: &mut Vec<u8>)
    ensures
        final(out)@ == old(out)@ + sig(*x),
{
    let ghost start = out@;
    bytes::push_bytes(out, x.hash.0.as_slice());
    let size = wire::put_number(x.size);
    bytes::push_bytes(out, size.as_slice());
    let flag = wire::put_flag(x.exec_bit);
    bytes::push_bytes(out, flag.as_slice());
    let mtime = wire::put_number(x.mtime_ms);
    bytes::push_bytes(out, mtime.as_slice());
    assert(out@ =~= start + sig(*x));
}

fn take_sig(s: &[u8]) -> (r: Result<(ContentSig, &[u8]), WireError>)
    ensures
        match r {
            Ok((v, rest)) => read_sig(s@) == Ok::<_, WireError>((v, rest@)),
            Err(e) => read_sig(s@) matches Err(f) && f == e,
        },
{
    let (hash, r1) = match wire::take_hash(s) {
        Ok(x) => x,
        Err(e) => {
            return Err(e);
        },
    };
    let (size, r2) = match wire::take_u64(r1) {
        Ok(x) => x,
        Err(e) => {
            return Err(e);
        },
    };
    let (exec_bit, r3) = match wire::take_flag(r2) {
        Ok(x) => x,
        Err(e) => {
            return Err(e);
        },
    };
    let (mtime_ms, r4) = match wire::take_u64(r3) {
        Ok(x) => x,
        Err(e) => {
            return Err(e);
        },
    };
    proof {
        array_of_view(hash);
    }
    Ok((ContentSig { hash: ContentHash(hash), size, exec_bit, mtime_ms }, r4))
}

/// A state: tag 0 and the signature, or tag 1 for a tombstone.
pub open spec fn state(x: EntryState) -> Seq<u8> {
    match x {
        EntryState::Present(y) => wire::varint(0) + sig(y),
        EntryState::Tombstone => wire::varint(1),
    }
}

/// Reading a state.
pub open spec fn read_state(s: Seq<u8>) -> Result<(EntryState, Seq<u8>), WireError> {
    match wire::read_u32(s) {
        Err(e) => Err(e),
        Ok((tag, r)) => if tag == 0 {
            match read_sig(r) {
                Err(e) => Err(e),
                Ok((x, t)) => Ok((EntryState::Present(x), t)),
            }
        } else if tag == 1 {
            Ok((EntryState::Tombstone, r))
        } else {
            Err(WireError::SerdeDeCustom)
        },
    }
}

/// A state that was written can be read.
pub proof fn state_round_trip(x: EntryState, rest: Seq<u8>)
    ensures
        read_state(state(x) + rest) == Ok::<_, WireError>((x, rest)),
{
    match x {
        EntryState::Present(y) => {
            sig_round_trip(y, rest);
            wire::number32_round_trip(0, sig(y) + rest);
            assert(state(x) + rest =~= wire::varint(0) + (sig(y) + rest));
        },
        EntryState::Tombstone => {
            wire::number32_round_trip(1, rest);
        },
    }
}

fn put_state(x: &EntryState, out: &mut Vec<u8>)
    ensures
        final(out)@ == old(out)@ + state(*x),
{
    let ghost start = out@;
    match x {
        EntryState::Present(y) => {
            let tag = wire::put_number(0);
            bytes::push_bytes(out, tag.as_slice());
            put_sig(y, out);
        },
        EntryState::Tombstone => {
            let tag = wire::put_number(1);
            bytes::push_bytes(out, tag.as_slice());
        },
    }
    assert(out@ =~= start + state(*x));
}

fn take_state(s: &[u8]) -> (r: Result<(EntryState, &[u8]), WireError>)
    ensures
        match r {
            Ok((v, rest)) => read_state(s@) == Ok::<_, WireError>((v, rest@)),
            Err(e) => read_state(s@) matches Err(f) && f == e,
        },
{
    match wire::take_u32(s) {
        Err(e) => Err(e),
        Ok((tag, r)) => {
            if tag == 0 {
                match take_sig(r) {
                    Err(e) => Err(e),
                    Ok((x, t)) => Ok((EntryState::Present(x), t)),
                }
            } else if tag == 1 {
                Ok((EntryState::Tombstone, r))
            } else {
                Err(WireError::SerdeDeCustom)
            }
        },
    }
}

// ---- heads and indices -----------------------------------------------------
/// A head: its clock, then its state.
pub open spec fn head(h: HeadModel) -> Seq<u8> {
    version(h.version) + state(h.state)
}

/// Reading a head.
pub open spec fn read_head(s: Seq<u8>) -> Result<(HeadModel, Seq<u8>), WireError> {
    match read_version(s) {
        Err(e) => Err(e),
        Ok((v, r)) => match read_state(r) {
            Err(e) => Err(e),
            Ok((x, t)) => Ok((HeadModel { version: v, state: x }, t)),
        },
    }
}

/// The clock of a head is a clock, and no longer than a list can be.
pub open spec fn head_ok(h: HeadModel) -> bool {
    clock::is_clock(h.version) && h.version.len() <= usize::MAX
}

/// A head that was written can be read.
pub proof fn head_round_trip(h: HeadModel, rest: Seq<u8>)
    requires
        head_ok(h),
    ensures
        read_head(head(h) + rest) == Ok::<_, WireError>((h, rest)),
{
    version_round_trip(h.version, state(h.state) + rest);
    state_round_trip(h.state, rest);
    assert(head(h) + rest =~= version(h.version) + (state(h.state) + rest));
}

fn put_head(h: &Head, out: &mut Vec<u8>)
    ensures
        final(out)@ == old(out)@ + head(h@),
        head_ok(h@),
{
    let ghost start = out@;
    put_version(&h.version, out);
    put_state(&h.state, out);
    assert(out@ =~= start + head(h@));
}

fn take_head(s: &[u8]) -> (r: Result<(Head, &[u8]), WireError>)
    ensures
        match r {
            Ok((v, rest)) => read_head(s@) == Ok::<_, WireError>((v@, rest@)),
            Err(e) => read_head(s@) matches Err(f) && f == e,
        },
{
    match take_version(s) {
        Err(e) => Err(e),
        Ok((version, r)) => match take_state(r) {
            Err(e) => Err(e),
            Ok((state, t)) => Ok((Head { version, state }, t)),
        },
    }
}

/// The heads of an entry, as a list.
pub open spec fn heads(hs: Seq<HeadModel>) -> Seq<u8> {
    wire::list(|h: HeadModel| head(h), hs)
}

/// Reading the heads of an entry.
pub open spec fn read_heads(s: Seq<u8>) -> Result<(Seq<HeadModel>, Seq<u8>), WireError> {
    wire::read_list(|r: Seq<u8>| read_head(r), s)
}

/// All heads can be written.
pub open spec fn heads_ok(hs: Seq<HeadModel>) -> bool {
    hs.len() <= usize::MAX && forall|i: int| 0 <= i < hs.len() ==> head_ok(#[trigger] hs[i])
}

/// Heads that were written can be read.
pub proof fn heads_round_trip(hs: Seq<HeadModel>, rest: Seq<u8>)
    requires
        heads_ok(hs),
    ensures
        read_heads(heads(hs) + rest) == Ok::<_, WireError>((hs, rest)),
{
    let w = |h: HeadModel| head(h);
    let rd = |r: Seq<u8>| read_head(r);
    assert forall|i: int, r: Seq<u8>| 0 <= i < hs.len() implies #[trigger] rd(
        w(hs[i]) + r,
    ) == Ok::<_, WireError>((hs[i], r)) by {
        assert(head_ok(hs[i]));
        head_round_trip(hs[i], r);
    }
    wire::list_round_trip(w, rd, hs, rest);
}

fn put_heads(hs: &[Head], out: &mut Vec<u8>)
    ensures
        final(out)@ == old(out)@ + heads(index::models(hs@)),
        heads_ok(index::models(hs@)),
{
    let ghost s = index::models(hs@);
    let ghost start = out@;
    let ghost w = |h: HeadModel| head(h);
    let n = wire::put_number(hs.len() as u64);
    bytes::push_bytes(out, n.as_slice());
    let mut i: usize = 0;
    assert(s.take(0) =~= Seq::<HeadModel>::empty());
    assert(out@ =~= start + wire::varint(s.len()) + wire::many(w, s.take(0)));
    while i < hs.len()
        invariant
            i <= hs@.len(),
            s == index::models(hs@),
            w == |h: HeadModel| head(h),
            out@ == start + wire::varint(s.len()) + wire::many(w, s.take(i as int)),
            forall|j: int| 0 <= j < i ==> head_ok(#[trigger] s[j]),
        decreases hs@.len() - i,
    {
        put_head(&hs[i], out);
        i = i + 1;
        proof {
            wire::many_push(w, s.take(i - 1), s[i - 1]);
            assert(s.take(i as int) =~= s.take(i - 1).push(s[i - 1]));
            assert(out@ =~= start + wire::varint(s.len()) + wire::many(w, s.take(i as int)));
        }
    }
    assert(s.take(i as int) =~= s);
    assert(out@ =~= start + heads(s));
}

fn take_heads(s: &[u8]) -> (r: Result<(Vec<Head>, &[u8]), WireError>)
    ensures
        match r {
            Ok((v, rest)) => read_heads(s@) == Ok::<_, WireError>((index::models(v@), rest@)),
            Err(e) => read_heads(s@) matches Err(f) && f == e,
        },
{
    let ghost rd = |r: Seq<u8>| read_head(r);
    let (n, mut cur) = match wire::take_len(s) {
        Ok(x) => x,
        Err(e) => {
            return Err(e);
        },
    };
    let ghost first = cur@;
    let mut hs: Vec<Head> = Vec::new();
    let mut i: usize = 0;
    proof {
        let all = wire::read_many(rd, first, n as nat);
        assert(index::models(hs@) =~= Seq::<HeadModel>::empty());
        match all {
            Ok((ys, t)) => {
                assert(index::models(hs@) + ys =~= ys);
            },
            Err(_) => {},
        }
    }
    while i < n
        invariant
            i <= n,
            rd == |r: Seq<u8>| read_head(r),
            wire::read_len(s@) == Ok::<_, WireError>((n as nat, first)),
            wire::read_many(rd, first, n as nat) == wire::prepend(
                index::models(hs@),
                wire::read_many(rd, cur@, (n - i) as nat),
            ),
        decreases n - i,
    {
        proof {
            wire::read_step(rd, cur@, (n - i) as nat, index::models(hs@));
        }
        let (h, r1) = match take_head(cur) {
            Ok(x) => x,
            Err(e) => {
                assert(rd(cur@) matches Err(f) && f == e);
                return Err(e);
            },
        };
        assert(rd(cur@) == Ok::<_, WireError>((h@, r1@)));
        let ghost had = index::models(hs@);
        hs.push(h);
        assert(index::models(hs@) =~= had.push(h@));
        cur = r1;
        i = i + 1;
    }
    assert(index::models(hs@) + Seq::<HeadModel>::empty() =~= index::models(hs@));
    Ok((hs, cur))
}

/// An index record: the path, then the heads.
pub open spec fn record(e: (Seq<char>, Seq<HeadModel>)) -> Seq<u8> {
    wire::text(e.0) + heads(e.1)
}

/// Reading a path: a text that breaks no rule of paths.
pub open spec fn read_path(s: Seq<u8>) -> Result<(Seq<char>, Seq<u8>), WireError> {
    match wire::read_text(s) {
        Err(e) => Err(e),
        Ok((t, r)) => if path::is_path(t) {
            Ok((t, r))
        } else {
            Err(WireError::SerdeDeCustom)
        },
    }
}

/// Reading an index record.
pub open spec fn read_record(s: Seq<u8>) -> Result<((Seq<char>, Seq<HeadModel>), Seq<u8>), WireError> {
    match read_path(s) {
        Err(e) => Err(e),
        Ok((p, r)) => match read_heads(r) {
            Err(e) => Err(e),
            Ok((hs, t)) => Ok(((p, hs), t)),
        },
    }
}

/// A record can be written and read back.
pub open spec fn record_ok(e: (Seq<char>, Seq<HeadModel>)) -> bool {
    path::is_path(e.0) && vstd::utf8::encode_utf8(e.0).len() <= usize::MAX && heads_ok(e.1)
}

/// A record that was written can be read.
pub proof fn record_round_trip(e: (Seq<char>, Seq<HeadModel>), rest: Seq<u8>)
    requires
        record_ok(e),
    ensures
        read_record(record(e) + rest) == Ok::<_, WireError>((e, rest)),
{
    wire::text_round_trip(e.0, heads(e.1) + rest);
    heads_round_trip(e.1, rest);
    assert(record(e) + rest =~= wire::text(e.0) + (heads(e.1) + rest));
}

/// An index: the list of its records in ascending path order.
pub open spec fn index_wire(m: Map<Seq<char>, Seq<HeadModel>>) -> Seq<u8> {
    wire::list(|e: (Seq<char>, Seq<HeadModel>)| record(e), pathmap::listing_of(m))
}

/// Reading an index. The records are inserted one after the other.
pub open spec fn read_index(s: Seq<u8>) -> Result<(Map<Seq<char>, Seq<HeadModel>>, Seq<u8>), WireError> {
    match wire::read_list(|r: Seq<u8>| read_record(r), s) {
        Err(e) => Err(e),
        Ok((es, t)) => Ok((pathmap::built(es), t)),
    }
}

/// Every record of the index can be written and read back.
pub open spec fn index_ok(m: Map<Seq<char>, Seq<HeadModel>>) -> bool {
    exists|l: Seq<(Seq<char>, Seq<HeadModel>)>|
        pathmap::sorted(l) && #[trigger] pathmap::to_map(l) == m && l.len() <= usize::MAX && forall|
            i: int,
        |
            0 <= i < l.len() ==> record_ok(#[trigger] l[i])
}

/// An index that was written can be read.
pub proof fn index_round_trip(m: Map<Seq<char>, Seq<HeadModel>>, rest: Seq<u8>)
    requires
        index_ok(m),
    ensures
        read_index(index_wire(m) + rest) == Ok::<_, WireError>((m, rest)),
{
    let l = choose|l: Seq<(Seq<char>, Seq<HeadModel>)>|
        pathmap::sorted(l) && #[trigger] pathmap::to_map(l) == m && l.len() <= usize::MAX && forall|
            i: int,
        |
            0 <= i < l.len() ==> record_ok(#[trigger] l[i]);
    pathmap::listing_of_map(l);
    let w = |e: (Seq<char>, Seq<HeadModel>)| record(e);
    let rd = |r: Seq<u8>| read_record(r);
    assert forall|i: int, r: Seq<u8>| 0 <= i < l.len() implies #[trigger] rd(
        w(l[i]) + r,
    ) == Ok::<_, WireError>((l[i], r)) by {
        assert(record_ok(l[i]));
        record_round_trip(l[i], r);
    }
    wire::list_round_trip(w, rd, l, rest);
    pathmap::built_listing(l);
}

/// Append an index's wire form to `out`.
pub(crate) fn put_index(x: &Index, out: &mut Vec<u8>)
    ensures
        final(out)@ == old(out)@ + index_wire(x@),
        index_ok(x@),
{
    let pairs = x.iter();
    let ghost l = x.listing();
    let ghost start = out@;
    let ghost w = |e: (Seq<char>, Seq<HeadModel>)| record(e);
    let n = wire::put_number(pairs.len() as u64);
    bytes::push_bytes(out, n.as_slice());
    let mut i: usize = 0;
    assert(l.take(0) =~= Seq::<(Seq<char>, Seq<HeadModel>)>::empty());
    assert(out@ =~= start + wire::varint(l.len()) + wire::many(w, l.take(0)));
    while i < pairs.len()
        invariant
            i <= pairs@.len(),
            pairs@.len() == l.len(),
            w == |e: (Seq<char>, Seq<HeadModel>)| record(e),
            forall|j: int|
                0 <= j < pairs@.len() ==> (#[trigger] pairs@[j]).0@ == l[j].0 && pairs@[j].1@
                    == l[j].1,
            forall|j: int| 0 <= j < i ==> record_ok(#[trigger] l[j]),
            out@ == start + wire::varint(l.len()) + wire::many(w, l.take(i as int)),
        decreases pairs@.len() - i,
    {
        let p = wire::put_text(pairs[i].0.as_str());
        assert(p.len() == wire::text(l[i as int].0).len());
        bytes::push_bytes(out, p.as_slice());
        put_heads(pairs[i].1.heads(), out);
        i = i + 1;
        proof {
            wire::many_push(w, l.take(i - 1), l[i - 1]);
            assert(l.take(i as int) =~= l.take(i - 1).push(l[i - 1]));
            assert(out@ =~= start + wire::varint(l.len()) + wire::many(w, l.take(i as int)));
        }
    }
    proof {
        assert(l.take(i as int) =~= l);
        pathmap::listing_of_map(l);
        assert(out@ =~= start + index_wire(x@));
        assert(pathmap::to_map(l) == x@);
    }
}

/// Read a path off the front.
pub(crate) fn take_path(s: &[u8]) -> (r: Result<(RelPath, &[u8]), WireError>)
    ensures
        match r {
            Ok((v, rest)) => read_path(s@) == Ok::<_, WireError>((v@, rest@)),
            Err(e) => read_path(s@) matches Err(f) && f == e,
        },
{
    match wire::take_text(s) {
        Err(e) => Err(e),
        Ok((t, r)) => match RelPath::new(t.as_str()) {
            Ok(p) => Ok((p, r)),
            Err(_) => Err(WireError::SerdeDeCustom),
        },
    }
}

/// Read an index off the front.
pub(crate) fn take_index(s: &[u8]) -> (r: Result<(Index, &[u8]), WireError>)
    ensures
        match r {
            Ok((v, rest)) => read_index(s@) == Ok::<_, WireError>((v@, rest@)),
            Err(e) => read_index(s@) matches Err(f) && f == e,
        },
{
    let ghost rd = |r: Seq<u8>| read_record(r);
    let (n, mut cur) = match wire::take_len(s) {
        Ok(x) => x,
        Err(e) => {
            return Err(e);
        },
    };
    let ghost first = cur@;
    let ghost mut es: Seq<(Seq<char>, Seq<HeadModel>)> = Seq::empty();
    let mut out = Index::new();
    let mut i: usize = 0;
    proof {
        match wire::read_many(rd, first, n as nat) {
            Ok((ys, t)) => {
                assert(es + ys =~= ys);
            },
            Err(_) => {},
        }
    }
    while i < n
        invariant
            i <= n,
            rd == |r: Seq<u8>| read_record(r),
            wire::read_len(s@) == Ok::<_, WireError>((n as nat, first)),
            out@ == pathmap::built(es),
            wire::read_many(rd, first, n as nat) == wire::prepend(
                es,
                wire::read_many(rd, cur@, (n - i) as nat),
            ),
        decreases n - i,
    {
        proof {
            wire::read_step(rd, cur@, (n - i) as nat, es);
        }
        let (p, r1) = match take_path(cur) {
            Ok(x) => x,
            Err(e) => {
                assert(rd(cur@) matches Err(f) && f == e);
                return Err(e);
            },
        };
        let (hs, r2) = match take_heads(r1) {
            Ok(x) => x,
            Err(e) => {
                assert(rd(cur@) matches Err(f) && f == e);
                return Err(e);
            },
        };
        let ghost e = (p@, index::models(hs@));
        assert(rd(cur@) == Ok::<_, WireError>((e, r2@)));
        let _ = out.upsert(p, Entry::from_heads(hs));
        proof {
            assert(es.push(e).drop_last() =~= es);
            es = es.push(e);
        }
        cur = r2;
        i = i + 1;
    }
    assert(es + Seq::<(Seq<char>, Seq<HeadModel>)>::empty() =~= es);
    Ok((out, cur))
}

// ---- changes ---------------------------------------------------------------
/// A change kind has the wire form of the state it leads to.
pub open spec fn kind(k: ChangeKind) -> Seq<u8> {
    state(engine::kind_state(k))
}

/// Reading a change kind.
pub open spec fn read_kind(s: Seq<u8>) -> Result<(ChangeKind, Seq<u8>), WireError> {
    match read_state(s) {
        Err(e) => Err(e),
        Ok((x, r)) => Ok((engine::state_kind(x), r)),
    }
}

/// A change: the path, the kind, the clock.
pub open spec fn change(p: Seq<char>, k: ChangeKind, v: Seq<(u64, u64)>) -> Seq<u8> {
    wire::text(p) + (kind(k) + version(v))
}

/// Reading a change.
pub open spec fn read_change(s: Seq<u8>) -> Result<
    ((Seq<char>, ChangeKind, Seq<(u64, u64)>), Seq<u8>),
    WireError,
> {
    match read_path(s) {
        Err(e) => Err(e),
        Ok((p, r1)) => match read_kind(r1) {
            Err(e) => Err(e),
            Ok((k, r2)) => match read_version(r2) {
                Err(e) => Err(e),
                Ok((v, r3)) => Ok(((p, k, v), r3)),
            },
        },
    }
}

/// A change can be written and read back.
pub open spec fn change_ok(p: Seq<char>, v: Seq<(u64, u64)>) -> bool {
    path::is_path(p) && vstd::utf8::encode_utf8(p).len() <= usize::MAX && clock::is_clock(v)
        && v.len() <= usize::MAX
}

/// A change that was written can be read.
pub proof fn change_round_trip(p: Seq<char>, k: ChangeKind, v: Seq<(u64, u64)>, rest: Seq<u8>)
    requires
        change_ok(p, v),
    ensures
        read_change(change(p, k, v) + rest) == Ok::<_, WireError>(((p, k, v), rest)),
{
    assert(change(p, k, v) + rest =~= wire::text(p) + (kind(k) + (version(v) + rest)));
    wire::text_round_trip(p, kind(k) + (version(v) + rest));
    state_round_trip(engine::kind_state(k), version(v) + rest);
    version_round_trip(v, rest);
}

/// Append a change's wire form to `out`.
pub(crate) fn put_change(c: &RemoteChange, out: &mut Vec<u8>)
    ensures
        final(out)@ == old(out)@ + change(c.path@, c.kind, c.version@),
        change_ok(c.path@, c.version@),
{
    let ghost start = out@;
    let p = wire::put_text(c.path.as_str());
    assert(p.len() == wire::text(c.path@).len());
    bytes::push_bytes(out, p.as_slice());
    put_state(&engine::state_from_kind(&c.kind), out);
    put_version(&c.version, out);
    assert(out@ =~= start + change(c.path@, c.kind, c.version@));
}

/// Read a change off the front.
pub(crate) fn take_change(s: &[u8]) -> (r: Result<(RemoteChange, &[u8]), WireError>)
    ensures
        match r {
            Ok((c, rest)) => read_change(s@) == Ok::<_, WireError>(
                ((c.path@, c.kind, c.version@), rest@),
            ),
            Err(e) => read_change(s@) matches Err(f) && f == e,
        },
{
    let (path, r1) = match take_path(s) {
        Ok(x) => x,
        Err(e) => {
            return Err(e);
        },
    };
    let (state, r2) = match take_state(r1) {
        Ok(x) => x,
        Err(e) => {
            return Err(e);
        },
    };
    let (version, r3) = match take_version(r2) {
        Ok(x) => x,
        Err(e) => {
            return Err(e);
        },
    };
    let kind = engine::kind_from_state(state);
    Ok((RemoteChange { path, kind, version }, r3))
}

} // verus!
