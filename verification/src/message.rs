//! Wire messages and the session they make up.
//!
//! Both sides send a `Hello`, then their index, and from then on a stream of
//! changes with liveness probes in between. Small content travels inline with
//! its change; larger content is announced by the ordered hashes of its chunks,
//! which the receiver then asks for.

use crate::bytes;
use crate::clock::ReplicaId;
use crate::codec;
use crate::event::{ChangeKind, RemoteChange};
use crate::index::{HeadModel, Index};
use crate::wire;
use crate::wireerror::WireError;
use vstd::prelude::*;

verus! {

/// The wire protocol version, negotiated in [`Message::Hello`].
pub const PROTOCOL_VERSION: u16 = 2;

/// Content of this many bytes or more does not travel inline.
pub const INLINE_THRESHOLD: usize = 1048576;

/// A 32-byte chunk (or whole-file) hash as it travels on the wire.
pub type ChunkHash = [u8; 32];

/// The name of the protocol.
pub fn crate_name() -> (s: &'static str)
    ensures
        s@ == "tomo-proto"@,
{
    "tomo-proto"
}

/// A single protocol message, identical in both directions of the session.
#[allow(inconsistent_fields)]
#[derive(Debug, Clone, PartialEq, Eq)]
pub enum Message {
    /// First message in each direction.
    Hello {
        /// The protocol version the sender speaks.
        protocol: u16,
        /// The sender's binary version.
        binary_version: String,
        /// The sender's stable replica identity.
        replica: ReplicaId,
    },
    /// The sender's full index, shipped once after `Hello`.
    IndexExchange(Index),
    /// A change of one path.
    Change {
        /// The change, with its vector clock.
        change: RemoteChange,
        /// The content of a small modified file; `None` for a removal.
        bytes: Option<Vec<u8>>,
    },
    /// A change whose content is announced by its chunks.
    ChangeManifest {
        /// The change, with its vector clock.
        change: RemoteChange,
        /// The total content size in bytes.
        total_size: u64,
        /// The ordered chunk hashes that make up the content.
        manifest: Vec<ChunkHash>,
    },
    /// A request for chunks.
    ChunkRequest {
        /// The hashes of the chunks wanted.
        hashes: Vec<ChunkHash>,
    },
    /// One chunk, answering a request.
    ChunkData {
        /// The chunk's hash.
        hash: ChunkHash,
        /// The chunk's bytes.
        bytes: Vec<u8>,
    },
    /// Liveness probe.
    Ping {
        /// Token echoed back in the matching `Pong`.
        nonce: u64,
    },
    /// Reply to a `Ping`.
    Pong {
        /// The token of the `Ping` being answered.
        nonce: u64,
    },
}

/// A message as a mathematical value.
#[allow(inconsistent_fields)]
pub ghost enum MessageModel {
    Hello { protocol: u16, binary_version: Seq<char>, replica: u64 },
    IndexExchange { index: Map<Seq<char>, Seq<HeadModel>> },
    Change { path: Seq<char>, kind: ChangeKind, version: Seq<(u64, u64)>, bytes: Option<Seq<u8>> },
    ChangeManifest {
        path: Seq<char>,
        kind: ChangeKind,
        version: Seq<(u64, u64)>,
        total_size: u64,
        manifest: Seq<Seq<u8>>,
    },
    ChunkRequest { hashes: Seq<Seq<u8>> },
    ChunkData { hash: Seq<u8>, bytes: Seq<u8> },
    Ping { nonce: u64 },
    Pong { nonce: u64 },
}

/// The bytes of a list of hashes.
pub open spec fn hash_models(hs: Seq<ChunkHash>) -> Seq<Seq<u8>> {
    Seq::new(hs.len(), |i: int| hs[i]@)
}

/// The bytes of optional content.
pub open spec fn content_model(b: Option<Vec<u8>>) -> Option<Seq<u8>> {
    match b {
        Some(v) => Some(v@),
        None => None,
    }
}

impl View for Message {
    type V = MessageModel;

    open spec fn view(&self) -> MessageModel {
        match *self {
            Message::Hello { protocol, binary_version, replica } => MessageModel::Hello {
                protocol,
                binary_version: binary_version@,
                replica: replica.0,
            },
            Message::IndexExchange(index) => MessageModel::IndexExchange { index: index@ },
            Message::Change { change, bytes } => MessageModel::Change {
                path: change.path@,
                kind: change.kind,
                version: change.version@,
                bytes: content_model(bytes),
            },
            Message::ChangeManifest { change, total_size, manifest } => {
                MessageModel::ChangeManifest {
                    path: change.path@,
                    kind: change.kind,
                    version: change.version@,
                    total_size,
                    manifest: hash_models(manifest@),
                }
            },
            Message::ChunkRequest { hashes } => MessageModel::ChunkRequest {
                hashes: hash_models(hashes@),
            },
            Message::ChunkData { hash, bytes } => MessageModel::ChunkData {
                hash: hash@,
                bytes: bytes@,
            },
            Message::Ping { nonce } => MessageModel::Ping { nonce },
            Message::Pong { nonce } => MessageModel::Pong { nonce },
        }
    }
}

/// Optional content: a flag, and the content where it is there.
pub open spec fn content(b: Option<Seq<u8>>) -> Seq<u8> {
    match b {
        Some(x) => wire::flag(true) + wire::blob(x),
        None => wire::flag(false),
    }
}

/// Reading optional content.
pub open spec fn read_content(s: Seq<u8>) -> Result<(Option<Seq<u8>>, Seq<u8>), WireError> {
    match wire::read_present(s) {
        Err(e) => Err(e),
        Ok((there, r)) => if there {
            match wire::read_blob(r) {
                Err(e) => Err(e),
                Ok((b, t)) => Ok((Some(b), t)),
            }
        } else {
            Ok((None, r))
        },
    }
}

/// A list of hashes.
pub open spec fn hashes_wire(hs: Seq<Seq<u8>>) -> Seq<u8> {
    wire::list(|h: Seq<u8>| h, hs)
}

/// Reading a list of hashes.
pub open spec fn read_hashes(s: Seq<u8>) -> Result<(Seq<Seq<u8>>, Seq<u8>), WireError> {
    wire::read_list(|r: Seq<u8>| wire::read_hash(r), s)
}

/// The payload of a message: its tag, then its fields in order.
pub open spec fn payload(m: MessageModel) -> Seq<u8> {
    match m {
        MessageModel::Hello { protocol, binary_version, replica } => wire::varint(0) + (
        wire::varint(protocol as nat) + (wire::text(binary_version) + wire::varint(
            replica as nat,
        ))),
        MessageModel::IndexExchange { index } => wire::varint(1) + codec::index_wire(index),
        MessageModel::Change { path, kind, version, bytes } => wire::varint(2) + (codec::change(
            path,
            kind,
            version,
        ) + content(bytes)),
        MessageModel::ChangeManifest { path, kind, version, total_size, manifest } => wire::varint(
            3,
        ) + (codec::change(path, kind, version) + (wire::varint(total_size as nat) + hashes_wire(
            manifest,
        ))),
        MessageModel::ChunkRequest { hashes } => wire::varint(4) + hashes_wire(hashes),
        MessageModel::ChunkData { hash, bytes } => wire::varint(5) + (hash + wire::blob(bytes)),
        MessageModel::Ping { nonce } => wire::varint(6) + wire::varint(nonce as nat),
        MessageModel::Pong { nonce } => wire::varint(7) + wire::varint(nonce as nat),
    }
}

/// Reading the fields of the message with the given tag.
pub open spec fn read_fields(tag: nat, s: Seq<u8>) -> Result<(MessageModel, Seq<u8>), WireError> {
    if tag == 0 {
        match wire::read_u16(s) {
            Err(e) => Err(e),
            Ok((p, r1)) => match wire::read_text(r1) {
                Err(e) => Err(e),
                Ok((v, r2)) => match wire::read_u64(r2) {
                    Err(e) => Err(e),
                    Ok((q, r3)) => Ok(
                        (
                            MessageModel::Hello {
                                protocol: p as u16,
                                binary_version: v,
                                replica: q as u64,
                            },
                            r3,
                        ),
                    ),
                },
            },
        }
    } else if tag == 1 {
        match codec::read_index(s) {
            Err(e) => Err(e),
            Ok((index, r)) => Ok((MessageModel::IndexExchange { index }, r)),
        }
    } else if tag == 2 {
        match codec::read_change(s) {
            Err(e) => Err(e),
            Ok((c, r1)) => match read_content(r1) {
                Err(e) => Err(e),
                Ok((bytes, r2)) => Ok(
                    (MessageModel::Change { path: c.0, kind: c.1, version: c.2, bytes }, r2),
                ),
            },
        }
    } else if tag == 3 {
        match codec::read_change(s) {
            Err(e) => Err(e),
            Ok((c, r1)) => match wire::read_u64(r1) {
                Err(e) => Err(e),
                Ok((n, r2)) => match read_hashes(r2) {
                    Err(e) => Err(e),
                    Ok((manifest, r3)) => Ok(
                        (
                            MessageModel::ChangeManifest {
                                path: c.0,
                                kind: c.1,
                                version: c.2,
                                total_size: n as u64,
                                manifest,
                            },
                            r3,
                        ),
                    ),
                },
            },
        }
    } else if tag == 4 {
        match read_hashes(s) {
            Err(e) => Err(e),
            Ok((hashes, r)) => Ok((MessageModel::ChunkRequest { hashes }, r)),
        }
    } else if tag == 5 {
        match wire::read_hash(s) {
            Err(e) => Err(e),
            Ok((hash, r1)) => match wire::read_blob(r1) {
                Err(e) => Err(e),
                Ok((bytes, r2)) => Ok((MessageModel::ChunkData { hash, bytes }, r2)),
            },
        }
    } else if tag == 6 {
        match wire::read_u64(s) {
            Err(e) => Err(e),
            Ok((n, r)) => Ok((MessageModel::Ping { nonce: n as u64 }, r)),
        }
    } else if tag == 7 {
        match wire::read_u64(s) {
            Err(e) => Err(e),
            Ok((n, r)) => Ok((MessageModel::Pong { nonce: n as u64 }, r)),
        }
    } else {
        Err(WireError::SerdeDeCustom)
    }
}

/// Reading a message off the front.
pub open spec fn read_message(s: Seq<u8>) -> Result<(MessageModel, Seq<u8>), WireError> {
    match wire::read_u32(s) {
        Err(e) => Err(e),
        Ok((tag, r)) => read_fields(tag, r),
    }
}

/// All lengths fit the machine, paths are paths and clocks are clocks: what
/// holds of every message that can be built.
pub open spec fn message_ok(m: MessageModel) -> bool {
    match m {
        MessageModel::Hello { binary_version, .. } => vstd::utf8::encode_utf8(
            binary_version,
        ).len() <= usize::MAX,
        MessageModel::IndexExchange { index } => codec::index_ok(index),
        MessageModel::Change { path, kind, version, bytes } => codec::change_ok(path, version) && (
        bytes is Some ==> bytes->0.len() <= usize::MAX),
        MessageModel::ChangeManifest { path, kind, version, total_size, manifest } => {
            codec::change_ok(path, version) && hashes_ok(manifest)
        },
        MessageModel::ChunkRequest { hashes } => hashes_ok(hashes),
        MessageModel::ChunkData { hash, bytes } => hash.len() == 32 && bytes.len() <= usize::MAX,
        MessageModel::Ping { .. } => true,
        MessageModel::Pong { .. } => true,
    }
}

/// Hashes of 32 bytes each.
pub open spec fn hashes_ok(hs: Seq<Seq<u8>>) -> bool {
    hs.len() <= usize::MAX && forall|i: int| 0 <= i < hs.len() ==> (#[trigger] hs[i]).len() == 32
}

proof fn hashes_round_trip(hs: Seq<Seq<u8>>, rest: Seq<u8>)
    requires
        hashes_ok(hs),
    ensures
        read_hashes(hashes_wire(hs) + rest) == Ok::<_, WireError>((hs, rest)),
{
    let w = |h: Seq<u8>| h;
    let rd = |r: Seq<u8>| wire::read_hash(r);
    assert forall|i: int, r: Seq<u8>| 0 <= i < hs.len() implies #[trigger] rd(
        w(hs[i]) + r,
    ) == Ok::<_, WireError>((hs[i], r)) by {
        assert(hs[i].len() == 32);
        wire::hash_round_trip(hs[i], r);
    }
    wire::list_round_trip(w, rd, hs, rest);
}

proof fn content_round_trip(b: Option<Seq<u8>>, rest: Seq<u8>)
    requires
        b is Some ==> b->0.len() <= usize::MAX,
    ensures
        read_content(content(b) + rest) == Ok::<_, WireError>((b, rest)),
{
    match b {
        Some(x) => {
            wire::present_round_trip(true, wire::blob(x) + rest);
            wire::blob_round_trip(x, rest);
            assert(content(b) + rest =~= wire::flag(true) + (wire::blob(x) + rest));
        },
        None => {
            wire::present_round_trip(false, rest);
        },
    }
}

proof fn hello_round_trip(
    protocol: u16,
    binary_version: Seq<char>,
    replica: u64,
    rest: Seq<u8>,
)
    requires
        message_ok(MessageModel::Hello { protocol, binary_version, replica }),
    ensures
        read_message(payload(MessageModel::Hello { protocol, binary_version, replica }) + rest) == Ok::<
            _,
            WireError,
        >((MessageModel::Hello { protocol, binary_version, replica }, rest)),
{
    let m = MessageModel::Hello { protocol, binary_version, replica };
    let a = wire::varint(protocol as nat);
    let b = wire::text(binary_version);
    let c = wire::varint(replica as nat);
    assert(payload(m) + rest =~= wire::varint(0) + (a + (b + (c + rest))));
    wire::number32_round_trip(0, a + (b + (c + rest)));
    wire::number16_round_trip(protocol as nat, b + (c + rest));
    wire::text_round_trip(binary_version, c + rest);
    wire::number_round_trip(replica as nat, rest);
}

proof fn index_round_trip(
    index: Map<Seq<char>, Seq<HeadModel>>,
    rest: Seq<u8>,
)
    requires
        message_ok(MessageModel::IndexExchange { index }),
    ensures
        read_message(payload(MessageModel::IndexExchange { index }) + rest) == Ok::<_, WireError>(
            (MessageModel::IndexExchange { index }, rest),
        ),
{
    let m = MessageModel::IndexExchange { index };
    let a = codec::index_wire(index);
    assert(payload(m) + rest =~= wire::varint(1) + (a + rest));
    wire::number32_round_trip(1, a + rest);
    codec::index_round_trip(index, rest);
}

proof fn change_round_trip(
    path: Seq<char>,
    kind: ChangeKind,
    version: Seq<(u64, u64)>,
    bytes: Option<Seq<u8>>,
    rest: Seq<u8>,
)
    requires
        message_ok(MessageModel::Change { path, kind, version, bytes }),
    ensures
        read_message(payload(MessageModel::Change { path, kind, version, bytes }) + rest) == Ok::<
            _,
            WireError,
        >((MessageModel::Change { path, kind, version, bytes }, rest)),
{
    let m = MessageModel::Change { path, kind, version, bytes };
    let a = codec::change(path, kind, version);
    let b = content(bytes);
    assert(payload(m) + rest =~= wire::varint(2) + (a + (b + rest)));
    wire::number32_round_trip(2, a + (b + rest));
    codec::change_round_trip(path, kind, version, b + rest);
    content_round_trip(bytes, rest);
}

proof fn manifest_round_trip(
    path: Seq<char>,
    kind: ChangeKind,
    version: Seq<(u64, u64)>,
    total_size: u64,
    manifest: Seq<Seq<u8>>,
    rest: Seq<u8>,
)
    requires
        message_ok(MessageModel::ChangeManifest { path, kind, version, total_size, manifest }),
    ensures
        read_message(payload(MessageModel::ChangeManifest { path, kind, version, total_size, manifest }) + rest) == Ok::<
            _,
            WireError,
        >((MessageModel::ChangeManifest { path, kind, version, total_size, manifest }, rest)),
{
    let m = MessageModel::ChangeManifest { path, kind, version, total_size, manifest };
    let a = codec::change(path, kind, version);
    let b = wire::varint(total_size as nat);
    let c = hashes_wire(manifest);
    assert(payload(m) + rest =~= wire::varint(3) + (a + (b + (c + rest))));
    wire::number32_round_trip(3, a + (b + (c + rest)));
    codec::change_round_trip(path, kind, version, b + (c + rest));
    wire::number_round_trip(total_size as nat, c + rest);
    hashes_round_trip(manifest, rest);
}

proof fn request_round_trip(
    hashes: Seq<Seq<u8>>,
    rest: Seq<u8>,
)
    requires
        message_ok(MessageModel::ChunkRequest { hashes }),
    ensures
        read_message(payload(MessageModel::ChunkRequest { hashes }) + rest) == Ok::<_, WireError>(
            (MessageModel::ChunkRequest { hashes }, rest),
        ),
{
    let m = MessageModel::ChunkRequest { hashes };
    let a = hashes_wire(hashes);
    assert(payload(m) + rest =~= wire::varint(4) + (a + rest));
    wire::number32_round_trip(4, a + rest);
    hashes_round_trip(hashes, rest);
}

proof fn data_round_trip(
    hash: Seq<u8>,
    bytes: Seq<u8>,
    rest: Seq<u8>,
)
    requires
        message_ok(MessageModel::ChunkData { hash, bytes }),
    ensures
        read_message(payload(MessageModel::ChunkData { hash, bytes }) + rest) == Ok::<_, WireError>(
            (MessageModel::ChunkData { hash, bytes }, rest),
        ),
{
    let m = MessageModel::ChunkData { hash, bytes };
    let b = wire::blob(bytes);
    assert(payload(m) + rest =~= wire::varint(5) + (hash + (b + rest)));
    wire::number32_round_trip(5, hash + (b + rest));
    wire::hash_round_trip(hash, b + rest);
    wire::blob_round_trip(bytes, rest);
}

proof fn ping_round_trip(
    nonce: u64,
    rest: Seq<u8>,
)
    requires
        message_ok(MessageModel::Ping { nonce }),
    ensures
        read_message(payload(MessageModel::Ping { nonce }) + rest) == Ok::<_, WireError>(
            (MessageModel::Ping { nonce }, rest),
        ),
{
    let m = MessageModel::Ping { nonce };
    let a = wire::varint(nonce as nat);
    assert(payload(m) + rest =~= wire::varint(6) + (a + rest));
    wire::number32_round_trip(6, a + rest);
    wire::number_round_trip(nonce as nat, rest);
}

proof fn pong_round_trip(
    nonce: u64,
    rest: Seq<u8>,
)
    requires
        message_ok(MessageModel::Pong { nonce }),
    ensures
        read_message(payload(MessageModel::Pong { nonce }) + rest) == Ok::<_, WireError>(
            (MessageModel::Pong { nonce }, rest),
        ),
{
    let m = MessageModel::Pong { nonce };
    let a = wire::varint(nonce as nat);
    assert(payload(m) + rest =~= wire::varint(7) + (a + rest));
    wire::number32_round_trip(7, a + rest);
    wire::number_round_trip(nonce as nat, rest);
}

/// Law: a message that was written can be read, whatever follows it.
pub proof fn message_round_trip(m: MessageModel, rest: Seq<u8>)
    requires
        message_ok(m),
    ensures
        read_message(payload(m) + rest) == Ok::<_, WireError>((m, rest)),
{
    match m {
        MessageModel::Hello { protocol, binary_version, replica } => {
            hello_round_trip(protocol, binary_version, replica, rest);
        },
        MessageModel::IndexExchange { index } => {
            index_round_trip(index, rest);
        },
        MessageModel::Change { path, kind, version, bytes } => {
            change_round_trip(path, kind, version, bytes, rest);
        },
        MessageModel::ChangeManifest { path, kind, version, total_size, manifest } => {
            manifest_round_trip(path, kind, version, total_size, manifest, rest);
        },
        MessageModel::ChunkRequest { hashes } => {
            request_round_trip(hashes, rest);
        },
        MessageModel::ChunkData { hash, bytes } => {
            data_round_trip(hash, bytes, rest);
        },
        MessageModel::Ping { nonce } => {
            ping_round_trip(nonce, rest);
        },
        MessageModel::Pong { nonce } => {
            pong_round_trip(nonce, rest);
        },
    }
}

fn put(out: &mut Vec<u8>, n: u64)
    ensures
        final(out)@ == old(out)@ + wire::varint(n as nat),
{
    let b = wire::put_number(n);
    bytes::push_bytes(out, b.as_slice());
}

fn put_hashes(hs: &Vec<ChunkHash>, out: &mut Vec<u8>)
    ensures
        final(out)@ == old(out)@ + hashes_wire(hash_models(hs@)),
        hashes_ok(hash_models(hs@)),
{
    let ghost s = hash_models(hs@);
    let ghost start = out@;
    let ghost w = |h: Seq<u8>| h;
    put(out, hs.len() as u64);
    let mut i: usize = 0;
    assert(s.take(0) =~= Seq::<Seq<u8>>::empty());
    assert(out@ =~= start + wire::varint(s.len()) + wire::many(w, s.take(0)));
    while i < hs.len()
        invariant
            i <= hs@.len(),
            s == hash_models(hs@),
            w == |h: Seq<u8>| h,
            out@ == start + wire::varint(s.len()) + wire::many(w, s.take(i as int)),
        decreases hs@.len() - i,
    {
        bytes::push_bytes(out, hs[i].as_slice());
        i = i + 1;
        proof {
            wire::many_push(w, s.take(i - 1), s[i - 1]);
            assert(s.take(i as int) =~= s.take(i - 1).push(s[i - 1]));
            assert(out@ =~= start + wire::varint(s.len()) + wire::many(w, s.take(i as int)));
        }
    }
    assert(s.take(i as int) =~= s);
    assert(out@ =~= start + hashes_wire(s));
}

fn take_hashes(s: &[u8]) -> (r: Result<(Vec<ChunkHash>, &[u8]), WireError>)
    ensures
        match r {
            Ok((v, rest)) => read_hashes(s@) == Ok::<_, WireError>((hash_models(v@), rest@)),
            Err(e) => read_hashes(s@) matches Err(f) && f == e,
        },
{
    let ghost rd = |r: Seq<u8>| wire::read_hash(r);
    let (n, mut cur) = match wire::take_len(s) {
        Ok(x) => x,
        Err(e) => {
            return Err(e);
        },
    };
    let ghost first = cur@;
    let mut hs: Vec<ChunkHash> = Vec::new();
    let mut i: usize = 0;
    proof {
        assert(hash_models(hs@) =~= Seq::<Seq<u8>>::empty());
        match wire::read_many(rd, first, n as nat) {
            Ok((ys, t)) => {
                assert(hash_models(hs@) + ys =~= ys);
            },
            Err(_) => {},
        }
    }
    while i < n
        invariant
            i <= n,
            rd == |r: Seq<u8>| wire::read_hash(r),
            wire::read_len(s@) == Ok::<_, WireError>((n as nat, first)),
            wire::read_many(rd, first, n as nat) == wire::prepend(
                hash_models(hs@),
                wire::read_many(rd, cur@, (n - i) as nat),
            ),
        decreases n - i,
    {
        proof {
            wire::read_step(rd, cur@, (n - i) as nat, hash_models(hs@));
        }
        let (h, r1) = match wire::take_hash(cur) {
            Ok(x) => x,
            Err(e) => {
                assert(rd(cur@) matches Err(f) && f == e);
                return Err(e);
            },
        };
        assert(rd(cur@) == Ok::<_, WireError>((h@, r1@)));
        let ghost had = hash_models(hs@);
        hs.push(h);
        assert(hash_models(hs@) =~= had.push(h@));
        cur = r1;
        i = i + 1;
    }
    assert(hash_models(hs@) + Seq::<Seq<u8>>::empty() =~= hash_models(hs@));
    Ok((hs, cur))
}

impl Message {
    /// The payload bytes of this message.
    pub fn to_payload(&self) -> (out: Vec<u8>)
        ensures
            out@ == payload(self@),
            message_ok(self@),
    {
        let mut out: Vec<u8> = Vec::new();
        match self {
            Message::Hello { protocol, binary_version, replica } => {
                put(&mut out, 0);
                put(&mut out, *protocol as u64);
                let v = wire::put_text(binary_version.as_str());
                assert(v.len() == wire::text(binary_version@).len());
                bytes::push_bytes(&mut out, v.as_slice());
                put(&mut out, replica.0);
            },
            Message::IndexExchange(index) => {
                put(&mut out, 1);
                codec::put_index(index, &mut out);
            },
            Message::Change { change, bytes } => {
                put(&mut out, 2);
                codec::put_change(change, &mut out);
                match bytes {
                    Some(b) => {
                        assert(b.len() == b@.len());
                        let there = wire::put_flag(true);
                        bytes::push_bytes(&mut out, there.as_slice());
                        let v = wire::put_blob(b.as_slice());
                        bytes::push_bytes(&mut out, v.as_slice());
                    },
                    None => {
                        let there = wire::put_flag(false);
                        bytes::push_bytes(&mut out, there.as_slice());
                    },
                }
            },
            Message::ChangeManifest { change, total_size, manifest } => {
                put(&mut out, 3);
                codec::put_change(change, &mut out);
                put(&mut out, *total_size);
                put_hashes(manifest, &mut out);
            },
            Message::ChunkRequest { hashes } => {
                put(&mut out, 4);
                put_hashes(hashes, &mut out);
            },
            Message::ChunkData { hash, bytes } => {
                put(&mut out, 5);
                assert(bytes.len() == bytes@.len());
                bytes::push_bytes(&mut out, hash.as_slice());
                let v = wire::put_blob(bytes.as_slice());
                bytes::push_bytes(&mut out, v.as_slice());
            },
            Message::Ping { nonce } => {
                put(&mut out, 6);
                put(&mut out, *nonce);
            },
            Message::Pong { nonce } => {
                put(&mut out, 7);
                put(&mut out, *nonce);
            },
        }
        assert(out@ =~= payload(self@));
        out
    }

    /// The message at the front of `s`, or why there is none. What follows the
    /// message is ignored.
    pub fn from_payload(s: &[u8]) -> (r: Result<Message, WireError>)
        ensures
            match r {
                Ok(m) => read_message(s@) matches Ok((n, _)) && n == m@,
                Err(e) => read_message(s@) matches Err(f) && f == e,
            },
    {
        let (tag, s) = match wire::take_u32(s) {
            Ok(x) => x,
            Err(e) => {
                return Err(e);
            },
        };
        if tag == 0 {
            match wire::take_u16(s) {
                Err(e) => Err(e),
                Ok((protocol, r1)) => match wire::take_text(r1) {
                    Err(e) => Err(e),
                    Ok((binary_version, r2)) => match wire::take_u64(r2) {
                        Err(e) => Err(e),
                        Ok((q, _)) => Ok(
                            Message::Hello { protocol, binary_version, replica: ReplicaId(q) },
                        ),
                    },
                },
            }
        } else if tag == 1 {
            match codec::take_index(s) {
                Err(e) => Err(e),
                Ok((index, _)) => Ok(Message::IndexExchange(index)),
            }
        } else if tag == 2 {
            match codec::take_change(s) {
                Err(e) => Err(e),
                Ok((change, r1)) => match wire::take_present(r1) {
                    Err(e) => Err(e),
                    Ok((true, r2)) => match wire::take_blob(r2) {
                        Err(e) => Err(e),
                        Ok((b, _)) => Ok(Message::Change { change, bytes: Some(b) }),
                    },
                    Ok((false, _)) => Ok(Message::Change { change, bytes: None }),
                },
            }
        } else if tag == 3 {
            match codec::take_change(s) {
                Err(e) => Err(e),
                Ok((change, r1)) => match wire::take_u64(r1) {
                    Err(e) => Err(e),
                    Ok((total_size, r2)) => match take_hashes(r2) {
                        Err(e) => Err(e),
                        Ok((manifest, _)) => Ok(
                            Message::ChangeManifest { change, total_size, manifest },
                        ),
                    },
                },
            }
        } else if tag == 4 {
            match take_hashes(s) {
                Err(e) => Err(e),
                Ok((hashes, _)) => Ok(Message::ChunkRequest { hashes }),
            }
        } else if tag == 5 {
            match wire::take_hash(s) {
                Err(e) => Err(e),
                Ok((hash, r1)) => match wire::take_blob(r1) {
                    Err(e) => Err(e),
                    Ok((bytes, _)) => Ok(Message::ChunkData { hash, bytes }),
                },
            }
        } else if tag == 6 {
            match wire::take_u64(s) {
                Err(e) => Err(e),
                Ok((nonce, _)) => Ok(Message::Ping { nonce }),
            }
        } else if tag == 7 {
            match wire::take_u64(s) {
                Err(e) => Err(e),
                Ok((nonce, _)) => Ok(Message::Pong { nonce }),
            }
        } else {
            Err(WireError::SerdeDeCustom)
        }
    }
}

} // verus!
