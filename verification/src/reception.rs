//! Laws of what arrives on the wire: what is cut short is incomplete, what is unknown is
//! refused, and what is read is sound.

use crate::codec;
use crate::engine;
use crate::event::ChangeKind;
use crate::frame;
use crate::index::{ContentSig, EntryState, HeadModel};
use crate::message;
use crate::message::MessageModel;
use crate::path;
use crate::pathmap;
use crate::wire;
use crate::wireerror::WireError;
use vstd::prelude::*;

verus! {

// ---- what is cut short -----------------------------------------------------
/// Where a text of two parts is cut.
proof fn cut_in_two(a: Seq<u8>, b: Seq<u8>, k: int)
    requires
        0 <= k <= a.len() + b.len(),
    ensures
        k < a.len() ==> (a + b).take(k) == a.take(k),
        k >= a.len() ==> (a + b).take(k) == a + b.take(k - a.len()),
{
    if k < a.len() {
        assert((a + b).take(k) =~= a.take(k));
    } else {
        assert((a + b).take(k) =~= a + b.take(k - a.len()));
    }
}

proof fn cut_varint(n: nat, max: nat, last: nat, k: int)
    requires
        wire::read_varint(wire::varint(n), max, last) is Ok,
        0 <= k < wire::varint(n).len(),
    ensures
        wire::read_varint(wire::varint(n).take(k), max, last) == Err::<(nat, Seq<u8>), WireError>(
            WireError::DeserializeUnexpectedEnd,
        ),
    decreases n,
{
    let s = wire::varint(n);
    if n >= 128 && k > 0 {
        let rest = wire::varint(n / 128);
        assert(s.skip(1) =~= rest);
        assert(s[0] >= 128);
        cut_varint(n / 128, (max - 1) as nat, last, k - 1);
        assert(s.take(k).skip(1) =~= rest.take(k - 1));
        assert(s.take(k)[0] == s[0]);
    }
}

proof fn cut_number(n: nat, k: int)
    requires
        n <= u64::MAX,
        0 <= k < wire::varint(n).len(),
    ensures
        wire::read_u64(wire::varint(n).take(k)) == Err::<(nat, Seq<u8>), WireError>(
            WireError::DeserializeUnexpectedEnd,
        ),
{
    wire::number_round_trip(n, seq![]);
    assert(wire::varint(n) + Seq::<u8>::empty() =~= wire::varint(n));
    cut_varint(n, 10, 1, k);
}

proof fn cut_number32(n: nat, k: int)
    requires
        n <= u32::MAX,
        0 <= k < wire::varint(n).len(),
    ensures
        wire::read_u32(wire::varint(n).take(k)) == Err::<(nat, Seq<u8>), WireError>(
            WireError::DeserializeUnexpectedEnd,
        ),
{
    wire::number32_round_trip(n, seq![]);
    assert(wire::varint(n) + Seq::<u8>::empty() =~= wire::varint(n));
    cut_varint(n, 5, 15, k);
}

proof fn cut_number16(n: nat, k: int)
    requires
        n <= u16::MAX,
        0 <= k < wire::varint(n).len(),
    ensures
        wire::read_u16(wire::varint(n).take(k)) == Err::<(nat, Seq<u8>), WireError>(
            WireError::DeserializeUnexpectedEnd,
        ),
{
    wire::number16_round_trip(n, seq![]);
    assert(wire::varint(n) + Seq::<u8>::empty() =~= wire::varint(n));
    cut_varint(n, 3, 3, k);
}

proof fn cut_len(n: nat, k: int)
    requires
        n <= usize::MAX,
        0 <= k < wire::varint(n).len(),
    ensures
        wire::read_len(wire::varint(n).take(k)) == Err::<(nat, Seq<u8>), WireError>(
            WireError::DeserializeUnexpectedEnd,
        ),
{
    wire::len_round_trip(n, seq![]);
    assert(wire::varint(n) + Seq::<u8>::empty() =~= wire::varint(n));
    if usize::BITS == 32 {
        cut_varint(n, 5, 15, k);
    } else {
        cut_varint(n, 10, 1, k);
    }
}

proof fn cut_blob(b: Seq<u8>, k: int)
    requires
        b.len() <= usize::MAX,
        0 <= k < wire::blob(b).len(),
    ensures
        wire::read_blob(wire::blob(b).take(k)) == Err::<(Seq<u8>, Seq<u8>), WireError>(
            WireError::DeserializeUnexpectedEnd,
        ),
{
    let n = wire::varint(b.len());
    cut_in_two(n, b, k);
    if k < n.len() {
        cut_len(b.len(), k);
    } else {
        wire::len_round_trip(b.len(), b.take(k - n.len()));
    }
}

proof fn cut_text(t: Seq<char>, k: int)
    requires
        vstd::utf8::encode_utf8(t).len() <= usize::MAX,
        0 <= k < wire::text(t).len(),
    ensures
        wire::read_text(wire::text(t).take(k)) == Err::<(Seq<char>, Seq<u8>), WireError>(
            WireError::DeserializeUnexpectedEnd,
        ),
{
    cut_blob(vstd::utf8::encode_utf8(t), k);
}

proof fn cut_many<T>(
    writer: spec_fn(T) -> Seq<u8>,
    reader: spec_fn(Seq<u8>) -> Result<(T, Seq<u8>), WireError>,
    xs: Seq<T>,
    k: int,
)
    requires
        forall|i: int, r: Seq<u8>|
            0 <= i < xs.len() ==> #[trigger] reader(writer(xs[i]) + r) == Ok::<_, WireError>(
                (xs[i], r),
            ),
        forall|i: int, j: int|
            0 <= i < xs.len() && 0 <= j < writer(xs[i]).len() ==> #[trigger] reader(
                writer(xs[i]).take(j),
            ) == Err::<(T, Seq<u8>), WireError>(WireError::DeserializeUnexpectedEnd),
        0 <= k < wire::many(writer, xs).len(),
    ensures
        wire::read_many(reader, wire::many(writer, xs).take(k), xs.len()) == Err::<
            (Seq<T>, Seq<u8>),
            WireError,
        >(WireError::DeserializeUnexpectedEnd),
    decreases xs.len(),
{
    let w = writer(xs[0]);
    let t = xs.skip(1);
    let rest = wire::many(writer, t);
    cut_in_two(w, rest, k);
    if k < w.len() {
        assert(reader(writer(xs[0]).take(k)) is Err);
    } else {
        assert forall|i: int, r: Seq<u8>| 0 <= i < t.len() implies #[trigger] reader(
            writer(t[i]) + r,
        ) == Ok::<_, WireError>((t[i], r)) by {
            assert(t[i] == xs[i + 1]);
            assert(reader(writer(xs[i + 1]) + r) == Ok::<_, WireError>((xs[i + 1], r)));
        }
        assert forall|i: int, j: int|
            0 <= i < t.len() && 0 <= j < writer(t[i]).len() implies #[trigger] reader(
            writer(t[i]).take(j),
        ) == Err::<(T, Seq<u8>), WireError>(WireError::DeserializeUnexpectedEnd) by {
            assert(t[i] == xs[i + 1]);
            assert(reader(writer(xs[i + 1]).take(j)) is Err);
        }
        cut_many(writer, reader, t, k - w.len());
        assert(reader(writer(xs[0]) + rest.take(k - w.len())) == Ok::<_, WireError>(
            (xs[0], rest.take(k - w.len())),
        ));
    }
}

proof fn cut_list<T>(
    writer: spec_fn(T) -> Seq<u8>,
    reader: spec_fn(Seq<u8>) -> Result<(T, Seq<u8>), WireError>,
    xs: Seq<T>,
    k: int,
)
    requires
        xs.len() <= usize::MAX,
        forall|i: int, r: Seq<u8>|
            0 <= i < xs.len() ==> #[trigger] reader(writer(xs[i]) + r) == Ok::<_, WireError>(
                (xs[i], r),
            ),
        forall|i: int, j: int|
            0 <= i < xs.len() && 0 <= j < writer(xs[i]).len() ==> #[trigger] reader(
                writer(xs[i]).take(j),
            ) == Err::<(T, Seq<u8>), WireError>(WireError::DeserializeUnexpectedEnd),
        0 <= k < wire::list(writer, xs).len(),
    ensures
        wire::read_list(reader, wire::list(writer, xs).take(k)) == Err::<
            (Seq<T>, Seq<u8>),
            WireError,
        >(WireError::DeserializeUnexpectedEnd),
{
    let n = wire::varint(xs.len());
    let body = wire::many(writer, xs);
    cut_in_two(n, body, k);
    if k < n.len() {
        cut_len(xs.len(), k);
    } else {
        wire::len_round_trip(xs.len(), body.take(k - n.len()));
        cut_many(writer, reader, xs, k - n.len());
    }
}

proof fn cut_pair(p: (u64, u64), k: int)
    requires
        0 <= k < codec::pair(p).len(),
    ensures
        codec::read_pair(codec::pair(p).take(k)) == Err::<((u64, u64), Seq<u8>), WireError>(
            WireError::DeserializeUnexpectedEnd,
        ),
{
    let a = wire::varint(p.0 as nat);
    let b = wire::varint(p.1 as nat);
    cut_in_two(a, b, k);
    if k < a.len() {
        cut_number(p.0 as nat, k);
    } else {
        wire::number_round_trip(p.0 as nat, b.take(k - a.len()));
        cut_number(p.1 as nat, k - a.len());
    }
}

proof fn pair_is_read(p: (u64, u64), r: Seq<u8>)
    ensures
        codec::read_pair(codec::pair(p) + r) == Ok::<_, WireError>((p, r)),
{
    let a = wire::varint(p.0 as nat);
    let b = wire::varint(p.1 as nat);
    assert(codec::pair(p) + r =~= a + (b + r));
    wire::number_round_trip(p.0 as nat, b + r);
    wire::number_round_trip(p.1 as nat, r);
}

proof fn cut_version(v: Seq<(u64, u64)>, k: int)
    requires
        v.len() <= usize::MAX,
        0 <= k < codec::version(v).len(),
    ensures
        codec::read_version(codec::version(v).take(k)) == Err::<
            (Seq<(u64, u64)>, Seq<u8>),
            WireError,
        >(WireError::DeserializeUnexpectedEnd),
{
    let w = |p: (u64, u64)| codec::pair(p);
    let rd = |r: Seq<u8>| codec::read_pair(r);
    assert forall|i: int, r: Seq<u8>| 0 <= i < v.len() implies #[trigger] rd(w(v[i]) + r) == Ok::<
        _,
        WireError,
    >((v[i], r)) by {
        pair_is_read(v[i], r);
    }
    assert forall|i: int, j: int|
        0 <= i < v.len() && 0 <= j < w(v[i]).len() implies #[trigger] rd(w(v[i]).take(j)) == Err::<
        ((u64, u64), Seq<u8>),
        WireError,
    >(WireError::DeserializeUnexpectedEnd) by {
        cut_pair(v[i], j);
    }
    cut_list(w, rd, v, k);
}

proof fn cut_sig(x: ContentSig, k: int)
    requires
        0 <= k < codec::sig(x).len(),
    ensures
        codec::read_sig(codec::sig(x).take(k)) == Err::<(ContentSig, Seq<u8>), WireError>(
            WireError::DeserializeUnexpectedEnd,
        ),
{
    let h = x.hash.0@;
    let n = wire::varint(x.size as nat);
    let f = wire::flag(x.exec_bit);
    let m = wire::varint(x.mtime_ms as nat);
    let k1 = k - h.len();
    let k2 = k1 - n.len();
    let k3 = k2 - f.len();
    cut_in_two(h, n + (f + m), k);
    if k >= h.len() {
        wire::hash_round_trip(h, (n + (f + m)).take(k1));
        cut_in_two(n, f + m, k1);
        if k1 < n.len() {
            cut_number(x.size as nat, k1);
        } else {
            wire::number_round_trip(x.size as nat, (f + m).take(k2));
            cut_in_two(f, m, k2);
            if k2 >= f.len() {
                wire::flag_round_trip(x.exec_bit, m.take(k3));
                cut_number(x.mtime_ms as nat, k3);
            }
        }
    }
}

proof fn cut_state(x: EntryState, k: int)
    requires
        0 <= k < codec::state(x).len(),
    ensures
        codec::read_state(codec::state(x).take(k)) == Err::<(EntryState, Seq<u8>), WireError>(
            WireError::DeserializeUnexpectedEnd,
        ),
{
    match x {
        EntryState::Present(y) => {
            let tag = wire::varint(0);
            cut_in_two(tag, codec::sig(y), k);
            if k < tag.len() {
                cut_number32(0, k);
            } else {
                wire::number32_round_trip(0, codec::sig(y).take(k - tag.len()));
                cut_sig(y, k - tag.len());
            }
        },
        EntryState::Tombstone => {
            cut_number32(1, k);
        },
    }
}

proof fn cut_head(h: HeadModel, k: int)
    requires
        codec::head_ok(h),
        0 <= k < codec::head(h).len(),
    ensures
        codec::read_head(codec::head(h).take(k)) == Err::<(HeadModel, Seq<u8>), WireError>(
            WireError::DeserializeUnexpectedEnd,
        ),
{
    let v = codec::version(h.version);
    let x = codec::state(h.state);
    cut_in_two(v, x, k);
    if k < v.len() {
        cut_version(h.version, k);
    } else {
        codec::version_round_trip(h.version, x.take(k - v.len()));
        cut_state(h.state, k - v.len());
    }
}

proof fn cut_heads(hs: Seq<HeadModel>, k: int)
    requires
        codec::heads_ok(hs),
        0 <= k < codec::heads(hs).len(),
    ensures
        codec::read_heads(codec::heads(hs).take(k)) == Err::<(Seq<HeadModel>, Seq<u8>), WireError>(
            WireError::DeserializeUnexpectedEnd,
        ),
{
    let w = |h: HeadModel| codec::head(h);
    let rd = |r: Seq<u8>| codec::read_head(r);
    assert forall|i: int, r: Seq<u8>| 0 <= i < hs.len() implies #[trigger] rd(w(hs[i]) + r) == Ok::<
        _,
        WireError,
    >((hs[i], r)) by {
        assert(codec::head_ok(hs[i]));
        codec::head_round_trip(hs[i], r);
    }
    assert forall|i: int, j: int|
        0 <= i < hs.len() && 0 <= j < w(hs[i]).len() implies #[trigger] rd(w(hs[i]).take(j))
        == Err::<(HeadModel, Seq<u8>), WireError>(WireError::DeserializeUnexpectedEnd) by {
        assert(codec::head_ok(hs[i]));
        cut_head(hs[i], j);
    }
    cut_list(w, rd, hs, k);
}

proof fn cut_record(e: (Seq<char>, Seq<HeadModel>), k: int)
    requires
        codec::record_ok(e),
        0 <= k < codec::record(e).len(),
    ensures
        codec::read_record(codec::record(e).take(k)) == Err::<
            ((Seq<char>, Seq<HeadModel>), Seq<u8>),
            WireError,
        >(WireError::DeserializeUnexpectedEnd),
{
    let p = wire::text(e.0);
    let hs = codec::heads(e.1);
    cut_in_two(p, hs, k);
    if k < p.len() {
        cut_text(e.0, k);
    } else {
        wire::text_round_trip(e.0, hs.take(k - p.len()));
        cut_heads(e.1, k - p.len());
    }
}

proof fn cut_index(m: Map<Seq<char>, Seq<HeadModel>>, k: int)
    requires
        codec::index_ok(m),
        0 <= k < codec::index_wire(m).len(),
    ensures
        codec::read_index(codec::index_wire(m).take(k)) == Err::<
            (Map<Seq<char>, Seq<HeadModel>>, Seq<u8>),
            WireError,
        >(WireError::DeserializeUnexpectedEnd),
{
    let l = choose|l: Seq<(Seq<char>, Seq<HeadModel>)>|
        pathmap::sorted(l) && #[trigger] pathmap::to_map(l) == m && l.len() <= usize::MAX && forall|
            i: int,
        |
            0 <= i < l.len() ==> codec::record_ok(#[trigger] l[i]);
    pathmap::listing_of_map(l);
    let w = |e: (Seq<char>, Seq<HeadModel>)| codec::record(e);
    let rd = |r: Seq<u8>| codec::read_record(r);
    assert forall|i: int, r: Seq<u8>| 0 <= i < l.len() implies #[trigger] rd(w(l[i]) + r) == Ok::<
        _,
        WireError,
    >((l[i], r)) by {
        assert(codec::record_ok(l[i]));
        codec::record_round_trip(l[i], r);
    }
    assert forall|i: int, j: int|
        0 <= i < l.len() && 0 <= j < w(l[i]).len() implies #[trigger] rd(w(l[i]).take(j)) == Err::<
        ((Seq<char>, Seq<HeadModel>), Seq<u8>),
        WireError,
    >(WireError::DeserializeUnexpectedEnd) by {
        assert(codec::record_ok(l[i]));
        cut_record(l[i], j);
    }
    cut_list(w, rd, l, k);
}

proof fn cut_change(p: Seq<char>, c: ChangeKind, v: Seq<(u64, u64)>, k: int)
    requires
        codec::change_ok(p, v),
        0 <= k < codec::change(p, c, v).len(),
    ensures
        codec::read_change(codec::change(p, c, v).take(k)) == Err::<
            ((Seq<char>, ChangeKind, Seq<(u64, u64)>), Seq<u8>),
            WireError,
        >(WireError::DeserializeUnexpectedEnd),
{
    let a = wire::text(p);
    let b = codec::kind(c);
    let d = codec::version(v);
    let k1 = k - a.len();
    let k2 = k1 - b.len();
    cut_in_two(a, b + d, k);
    if k < a.len() {
        cut_text(p, k);
    } else {
        wire::text_round_trip(p, (b + d).take(k1));
        cut_in_two(b, d, k1);
        if k1 < b.len() {
            cut_state(engine::kind_state(c), k1);
        } else {
            codec::state_round_trip(engine::kind_state(c), d.take(k2));
            cut_version(v, k2);
        }
    }
}

proof fn cut_content(b: Option<Seq<u8>>, k: int)
    requires
        b is Some ==> b->0.len() <= usize::MAX,
        0 <= k < message::content(b).len(),
    ensures
        message::read_content(message::content(b).take(k)) == Err::<
            (Option<Seq<u8>>, Seq<u8>),
            WireError,
        >(WireError::DeserializeUnexpectedEnd),
{
    match b {
        Some(x) => {
            let f = wire::flag(true);
            cut_in_two(f, wire::blob(x), k);
            if k >= f.len() {
                wire::present_round_trip(true, wire::blob(x).take(k - f.len()));
                cut_blob(x, k - f.len());
            }
        },
        None => {},
    }
}

proof fn cut_hashes(hs: Seq<Seq<u8>>, k: int)
    requires
        message::hashes_ok(hs),
        0 <= k < message::hashes_wire(hs).len(),
    ensures
        message::read_hashes(message::hashes_wire(hs).take(k)) == Err::<
            (Seq<Seq<u8>>, Seq<u8>),
            WireError,
        >(WireError::DeserializeUnexpectedEnd),
{
    let w = |h: Seq<u8>| h;
    let rd = |r: Seq<u8>| wire::read_hash(r);
    assert forall|i: int, r: Seq<u8>| 0 <= i < hs.len() implies #[trigger] rd(w(hs[i]) + r) == Ok::<
        _,
        WireError,
    >((hs[i], r)) by {
        assert(hs[i].len() == 32);
        wire::hash_round_trip(hs[i], r);
    }
    assert forall|i: int, j: int|
        0 <= i < hs.len() && 0 <= j < w(hs[i]).len() implies #[trigger] rd(w(hs[i]).take(j))
        == Err::<(Seq<u8>, Seq<u8>), WireError>(WireError::DeserializeUnexpectedEnd) by {
        assert(hs[i].len() == 32);
    }
    cut_list(w, rd, hs, k);
}

proof fn cut_fields(m: MessageModel, tag: nat, body: Seq<u8>, k: int)
    requires
        message::message_ok(m),
        tag < 8,
        message::payload(m) == wire::varint(tag) + body,
        match m {
            MessageModel::Hello { .. } => tag == 0,
            MessageModel::IndexExchange { .. } => tag == 1,
            MessageModel::Change { .. } => tag == 2,
            MessageModel::ChangeManifest { .. } => tag == 3,
            MessageModel::ChunkRequest { .. } => tag == 4,
            MessageModel::ChunkData { .. } => tag == 5,
            MessageModel::Ping { .. } => tag == 6,
            MessageModel::Pong { .. } => tag == 7,
        },
        0 <= k < body.len(),
    ensures
        message::read_fields(tag, body.take(k)) == Err::<(MessageModel, Seq<u8>), WireError>(
            WireError::DeserializeUnexpectedEnd,
        ),
{
    assert(body =~= message::payload(m).skip(wire::varint(tag).len() as int));
    match m {
        MessageModel::Hello { protocol, binary_version, replica } => {
            let a = wire::varint(protocol as nat);
            let b = wire::text(binary_version);
            let c = wire::varint(replica as nat);
            let k1 = k - a.len();
            let k2 = k1 - b.len();
            assert(body =~= a + (b + c));
            cut_in_two(a, b + c, k);
            if k < a.len() {
                cut_number16(protocol as nat, k);
            } else {
                wire::number16_round_trip(protocol as nat, (b + c).take(k1));
                cut_in_two(b, c, k1);
                if k1 < b.len() {
                    cut_text(binary_version, k1);
                } else {
                    wire::text_round_trip(binary_version, c.take(k2));
                    cut_number(replica as nat, k2);
                }
            }
        },
        MessageModel::IndexExchange { index } => {
            assert(body =~= codec::index_wire(index));
            cut_index(index, k);
        },
        MessageModel::Change { path, kind, version, bytes } => {
            let a = codec::change(path, kind, version);
            let b = message::content(bytes);
            assert(body =~= a + b);
            cut_in_two(a, b, k);
            if k < a.len() {
                cut_change(path, kind, version, k);
            } else {
                codec::change_round_trip(path, kind, version, b.take(k - a.len()));
                cut_content(bytes, k - a.len());
            }
        },
        MessageModel::ChangeManifest { path, kind, version, total_size, manifest } => {
            let a = codec::change(path, kind, version);
            let b = wire::varint(total_size as nat);
            let c = message::hashes_wire(manifest);
            let k1 = k - a.len();
            let k2 = k1 - b.len();
            assert(body =~= a + (b + c));
            cut_in_two(a, b + c, k);
            if k < a.len() {
                cut_change(path, kind, version, k);
            } else {
                codec::change_round_trip(path, kind, version, (b + c).take(k1));
                cut_in_two(b, c, k1);
                if k1 < b.len() {
                    cut_number(total_size as nat, k1);
                } else {
                    wire::number_round_trip(total_size as nat, c.take(k2));
                    cut_hashes(manifest, k2);
                }
            }
        },
        MessageModel::ChunkRequest { hashes } => {
            assert(body =~= message::hashes_wire(hashes));
            cut_hashes(hashes, k);
        },
        MessageModel::ChunkData { hash, bytes } => {
            let b = wire::blob(bytes);
            assert(body =~= hash + b);
            cut_in_two(hash, b, k);
            if k >= hash.len() {
                wire::hash_round_trip(hash, b.take(k - hash.len()));
                cut_blob(bytes, k - hash.len());
            }
        },
        MessageModel::Ping { nonce } => {
            assert(body =~= wire::varint(nonce as nat));
            cut_number(nonce as nat, k);
        },
        MessageModel::Pong { nonce } => {
            assert(body =~= wire::varint(nonce as nat));
            cut_number(nonce as nat, k);
        },
    }
}

/// The number that a message's payload begins with.
pub open spec fn tag_of(m: MessageModel) -> nat {
    match m {
        MessageModel::Hello { .. } => 0,
        MessageModel::IndexExchange { .. } => 1,
        MessageModel::Change { .. } => 2,
        MessageModel::ChangeManifest { .. } => 3,
        MessageModel::ChunkRequest { .. } => 4,
        MessageModel::ChunkData { .. } => 5,
        MessageModel::Ping { .. } => 6,
        MessageModel::Pong { .. } => 7,
    }
}

/// Law: a payload that is cut short, wherever that is, holds no message: its end is
/// missed, and nothing else is said.
pub proof fn a_cut_payload_is_incomplete(m: MessageModel, k: int)
    requires
        message::message_ok(m),
        0 <= k < message::payload(m).len(),
    ensures
        message::read_message(message::payload(m).take(k)) == Err::<
            (MessageModel, Seq<u8>),
            WireError,
        >(WireError::DeserializeUnexpectedEnd),
{
    let tag = wire::varint(tag_of(m));
    let body = message::payload(m).skip(tag.len() as int);
    assert(message::payload(m) =~= tag + body);
    cut_in_two(tag, body, k);
    if k < tag.len() {
        cut_number32(tag_of(m), k);
    } else {
        wire::number32_round_trip(tag_of(m), body.take(k - tag.len()));
        cut_fields(m, tag_of(m), body, k - tag.len());
    }
}

// ---- what is refused -------------------------------------------------------
/// Law: a message of a kind that there is not is refused.
pub proof fn an_unknown_message_is_refused(tag: u32, rest: Seq<u8>)
    requires
        tag >= 8,
    ensures
        message::read_message(wire::varint(tag as nat) + rest) == Err::<
            (MessageModel, Seq<u8>),
            WireError,
        >(WireError::SerdeDeCustom),
{
    wire::number32_round_trip(tag as nat, rest);
}

/// Law: a frame that declares more than 268435456 bytes is refused before any of them has
/// come; one that declares no more waits for them.
pub proof fn only_large_frames_are_refused(len: u32, rest: Seq<u8>)
    ensures
        len > 268435456 ==> frame::front(vstd::bytes::spec_u32_to_le_bytes(len) + rest) == (
        frame::Front::TooLarge { len }),
        len <= 268435456 && rest.len() < len ==> frame::front(
            vstd::bytes::spec_u32_to_le_bytes(len) + rest,
        ) is Partial,
{
    vstd::bytes::lemma_auto_spec_u32_to_from_le_bytes();
    let p = vstd::bytes::spec_u32_to_le_bytes(len);
    assert(p.len() == 4);
    assert((p + rest).take(4) =~= p);
}

// ---- what is read ----------------------------------------------------------
/// The path of the message, if it has one, is a path; so are those of an index; and every
/// hash has 32 bytes.
pub open spec fn well_made(m: MessageModel) -> bool {
    match m {
        MessageModel::Hello { .. } => true,
        MessageModel::IndexExchange { index } => forall|p: Seq<char>|
            index.dom().contains(p) ==> #[trigger] path::is_path(p),
        MessageModel::Change { path, .. } => path::is_path(path),
        MessageModel::ChangeManifest { path, manifest, .. } => path::is_path(path) && forall|i: int|
            0 <= i < manifest.len() ==> (#[trigger] manifest[i]).len() == 32,
        MessageModel::ChunkRequest { hashes } => forall|i: int|
            0 <= i < hashes.len() ==> (#[trigger] hashes[i]).len() == 32,
        MessageModel::ChunkData { hash, .. } => hash.len() == 32,
        MessageModel::Ping { .. } => true,
        MessageModel::Pong { .. } => true,
    }
}

proof fn hashes_are_whole(s: Seq<u8>, n: nat, i: int)
    requires
        wire::read_many(|r: Seq<u8>| wire::read_hash(r), s, n) is Ok,
        0 <= i < wire::read_many(|r: Seq<u8>| wire::read_hash(r), s, n)->Ok_0.0.len(),
    ensures
        wire::read_many(|r: Seq<u8>| wire::read_hash(r), s, n)->Ok_0.0[i].len() == 32,
    decreases n,
{
    let rd = |r: Seq<u8>| wire::read_hash(r);
    if n > 0 {
        let (x, r) = rd(s)->Ok_0;
        let more = wire::read_many(rd, r, (n - 1) as nat);
        if i > 0 {
            hashes_are_whole(r, (n - 1) as nat, i - 1);
            assert((seq![x] + more->Ok_0.0)[i] == more->Ok_0.0[i - 1]);
        }
    }
}

proof fn records_have_paths(s: Seq<u8>, n: nat, i: int)
    requires
        wire::read_many(|r: Seq<u8>| codec::read_record(r), s, n) is Ok,
        0 <= i < wire::read_many(|r: Seq<u8>| codec::read_record(r), s, n)->Ok_0.0.len(),
    ensures
        path::is_path(wire::read_many(|r: Seq<u8>| codec::read_record(r), s, n)->Ok_0.0[i].0),
    decreases n,
{
    let rd = |r: Seq<u8>| codec::read_record(r);
    if n > 0 {
        let (x, r) = rd(s)->Ok_0;
        let more = wire::read_many(rd, r, (n - 1) as nat);
        if i > 0 {
            records_have_paths(r, (n - 1) as nat, i - 1);
            assert((seq![x] + more->Ok_0.0)[i] == more->Ok_0.0[i - 1]);
        }
    }
}

proof fn built_of_pairs(pairs: Seq<(Seq<char>, Seq<HeadModel>)>, p: Seq<char>)
    requires
        pathmap::built(pairs).dom().contains(p),
    ensures
        exists|i: int| 0 <= i < pairs.len() && (#[trigger] pairs[i]).0 == p,
    decreases pairs.len(),
{
    if pairs.len() > 0 {
        let front = pairs.drop_last();
        if p == pairs.last().0 {
            assert(pairs[pairs.len() - 1].0 == p);
        } else {
            built_of_pairs(front, p);
            let i = choose|i: int| 0 <= i < front.len() && (#[trigger] front[i]).0 == p;
            assert(pairs[i].0 == p);
        }
    }
}

/// Law: whatever bytes arrive, a message that is read from them is well made.
pub proof fn what_is_read_is_well_made(s: Seq<u8>)
    requires
        message::read_message(s) is Ok,
    ensures
        well_made(message::read_message(s)->Ok_0.0),
{
    let (tag, r) = wire::read_u32(s)->Ok_0;
    let m = message::read_message(s)->Ok_0.0;
    let rd = |r: Seq<u8>| wire::read_hash(r);
    match m {
        MessageModel::IndexExchange { index } => {
            let rr = |r: Seq<u8>| codec::read_record(r);
            let (n, t) = wire::read_len(r)->Ok_0;
            let es = wire::read_many(rr, t, n)->Ok_0.0;
            assert(index == pathmap::built(es));
            assert forall|p: Seq<char>| index.dom().contains(p) implies #[trigger] path::is_path(
                p,
            ) by {
                built_of_pairs(es, p);
                let i = choose|i: int| 0 <= i < es.len() && (#[trigger] es[i]).0 == p;
                records_have_paths(t, n, i);
            }
        },
        MessageModel::ChangeManifest { path, manifest, .. } => {
            let (c, r1) = codec::read_change(r)->Ok_0;
            let (q, r2) = wire::read_u64(r1)->Ok_0;
            let (n, t) = wire::read_len(r2)->Ok_0;
            assert forall|i: int| 0 <= i < manifest.len() implies (#[trigger] manifest[i]).len()
                == 32 by {
                hashes_are_whole(t, n, i);
            }
        },
        MessageModel::ChunkRequest { hashes } => {
            let (n, t) = wire::read_len(r)->Ok_0;
            assert forall|i: int| 0 <= i < hashes.len() implies (#[trigger] hashes[i]).len()
                == 32 by {
                hashes_are_whole(t, n, i);
            }
        },
        _ => {},
    }
}

} // verus!
