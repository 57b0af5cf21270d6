//! Length-prefixed framing over a byte stream.
//!
//! A frame is a 32-bit little-endian payload length and then the payload of one
//! [`Message`]. Bytes arrive in arbitrary chunks; [`FrameDecoder`] buffers them
//! and yields messages as they become complete. A bad length or an undecodable
//! payload is fatal: the decoder does not advance past it.

use crate::bytes;
use crate::message;
use crate::message::{Message, MessageModel};
use crate::wireerror::WireError;
use vstd::prelude::*;

verus! {

/// The number of bytes in the length prefix.
pub const LEN_PREFIX: usize = 4;

/// Upper bound on a single frame's payload, in bytes.
pub const MAX_FRAME_LEN: u32 = 268435456;

/// Something went wrong encoding or decoding the wire protocol. Every error is
/// fatal for the stream.
#[derive(Debug, Clone, Copy, PartialEq, Eq, Structural)]
pub enum ProtoError {
    /// A frame declared (or would declare) a payload above [`MAX_FRAME_LEN`].
    FrameTooLarge {
        /// The offending payload length in bytes; the largest number where the
        /// length does not fit.
        len: u32,
    },
    /// A frame's payload could not be decoded into a [`Message`].
    Decode(WireError),
    /// A [`Message`] could not be written. No message that there is comes to this.
    Encode(WireError),
}

impl ProtoError {
    /// What the error says.
    pub open spec fn text(self) -> Seq<char> {
        match self {
            ProtoError::FrameTooLarge { len } => "frame length "@ + crate::text::decimal(len as nat)
                + " exceeds maximum "@ + crate::text::decimal(MAX_FRAME_LEN as nat),
            ProtoError::Decode(cause) => "failed to decode message payload: "@ + cause.text(),
            ProtoError::Encode(cause) => "failed to encode message: "@ + cause.text(),
        }
    }

    /// The message of this error.
    pub fn message(&self) -> (m: String)
        ensures
            m@ == self.text(),
    {
        let mut v: Vec<char> = Vec::new();
        match self {
            ProtoError::FrameTooLarge { len } => {
                crate::text::push_text(&mut v, "frame length ");
                let n = crate::text::decimal_of(*len as u64);
                crate::text::push_all(&mut v, n.as_slice());
                crate::text::push_text(&mut v, " exceeds maximum ");
                let n = crate::text::decimal_of(MAX_FRAME_LEN as u64);
                crate::text::push_all(&mut v, n.as_slice());
            },
            ProtoError::Decode(cause) => {
                crate::text::push_text(&mut v, "failed to decode message payload: ");
                crate::text::push_text(&mut v, cause.message());
            },
            ProtoError::Encode(cause) => {
                crate::text::push_text(&mut v, "failed to encode message: ");
                crate::text::push_text(&mut v, cause.message());
            },
        }
        assert(v@ =~= self.text());
        crate::text::string_of(v.as_slice())
    }
}

/// The four little-endian bytes of `x`.
pub open spec fn le32(x: u32) -> Seq<u8> {
    vstd::bytes::spec_u32_to_le_bytes(x)
}

/// The number with these four little-endian bytes.
pub open spec fn from_le32(s: Seq<u8>) -> u32 {
    vstd::bytes::spec_u32_from_le_bytes(s)
}

/// The frame of a message: the payload's length, then the payload.
pub open spec fn frame(m: MessageModel) -> Seq<u8> {
    le32(message::payload(m).len() as u32) + message::payload(m)
}

/// Encode `msg` into a complete frame.
///
/// The error is that the payload is above [`MAX_FRAME_LEN`]. Every message that
/// there is meets what the laws of frames ask of it.
pub fn encode(msg: &Message) -> (r: Result<Vec<u8>, ProtoError>)
    ensures
        message::message_ok(msg@),
        match r {
            Ok(b) => message::payload(msg@).len() <= MAX_FRAME_LEN && b@ == frame(msg@),
            Err(e) => {
                let n = message::payload(msg@).len();
                &&& n > MAX_FRAME_LEN
                &&& e == ProtoError::FrameTooLarge {
                    len: if n <= u32::MAX {
                        n as u32
                    } else {
                        u32::MAX
                    },
                }
            },
        },
{
    let payload = msg.to_payload();
    if payload.len() > u32::MAX as usize {
        return Err(ProtoError::FrameTooLarge { len: u32::MAX });
    }
    let len: u32 = payload.len() as u32;
    if len > MAX_FRAME_LEN {
        return Err(ProtoError::FrameTooLarge { len });
    }
    let mut out = vstd::bytes::u32_to_le_bytes(len);
    bytes::push_bytes(&mut out, payload.as_slice());
    Ok(out)
}

/// What the front of a stream holds.
pub ghost enum Front {
    /// Not yet a whole frame.
    Partial,
    /// A length above the bound.
    TooLarge { len: u32 },
    /// A whole frame that holds no message, and why it holds none.
    Garbage { cause: WireError },
    /// A message, and what follows its frame.
    Message { message: MessageModel, rest: Seq<u8> },
}

/// What the stream `s` starts with.
pub open spec fn front(s: Seq<u8>) -> Front {
    if s.len() < LEN_PREFIX {
        Front::Partial
    } else {
        let len = from_le32(s.take(4));
        if len > MAX_FRAME_LEN {
            Front::TooLarge { len }
        } else if s.len() < LEN_PREFIX + len {
            Front::Partial
        } else {
            match message::read_message(s.subrange(4, 4 + len)) {
                Err(cause) => Front::Garbage { cause },
                Ok((m, _)) => Front::Message { message: m, rest: s.skip(4 + len) },
            }
        }
    }
}

/// Incremental decoder that reassembles messages from a byte stream.
#[derive(Debug)]
pub struct FrameDecoder {
    buf: Vec<u8>,
    pos: usize,
}

impl View for FrameDecoder {
    type V = Seq<u8>;

    /// The bytes received and not yet consumed.
    closed spec fn view(&self) -> Seq<u8> {
        self.buf@.skip(self.pos as int)
    }
}

impl FrameDecoder {
    /// What is consumed lies within what was received.
    #[verifier::type_invariant]
    closed spec fn wf(self) -> bool {
        self.pos <= self.buf@.len()
    }

    /// The bytes that the buffer holds: those not yet consumed, behind those consumed
    /// since the last push.
    pub closed spec fn held(&self) -> Seq<u8> {
        self.buf@
    }

    /// A fresh decoder with an empty buffer.
    pub fn new() -> (d: Self)
        ensures
            d@ == Seq::<u8>::empty(),
            d.held() == Seq::<u8>::empty(),
    {
        let d = FrameDecoder { buf: Vec::new(), pos: 0 };
        assert(d@ =~= Seq::<u8>::empty());
        d
    }

    /// Append received `bytes`. What was consumed is dropped first, so the
    /// buffer does not grow over a long session.
    pub fn push(&mut self, bytes: &[u8])
        ensures
            final(self)@ == old(self)@ + bytes@,
            final(self).held() == final(self)@,
    {
        proof {
            use_type_invariant(&*self);
        }
        let ghost before = self@;
        let mut kept: Vec<u8> = bytes::copy_bytes(self.buf.as_slice(), self.pos, self.buf.len());
        bytes::push_bytes(&mut kept, bytes);
        assert(self.buf@.subrange(self.pos as int, self.buf@.len() as int) =~= before);
        self.pos = 0;
        self.buf = kept;
        assert(self@ =~= before + bytes@);
        assert(self.held() =~= self@);
    }

    /// Pop the next complete [`Message`] if one is buffered; `Ok(None)` while
    /// only a partial frame is there.
    ///
    /// An error leaves the decoder as it was.
    pub fn next(&mut self) -> (r: Result<Option<Message>, ProtoError>)
        ensures
            match front(old(self)@) {
                Front::Partial => r is Ok && r->Ok_0 is None && final(self)@ == old(self)@,
                Front::TooLarge { len } => r == Err::<Option<Message>, ProtoError>(
                    ProtoError::FrameTooLarge { len },
                ) && final(self)@ == old(self)@,
                Front::Garbage { cause } => r == Err::<Option<Message>, ProtoError>(
                    ProtoError::Decode(cause),
                ) && final(self)@ == old(self)@,
                Front::Message { message, rest } => r is Ok && r->Ok_0 is Some && r->Ok_0->0@
                    == message && final(self)@ == rest,
            },
            final(self).held() == old(self).held(),
    {
        proof {
            use_type_invariant(&*self);
        }
        let ghost s = self@;
        let avail: usize = self.buf.len() - self.pos;
        if avail < LEN_PREFIX {
            return Ok(None);
        }
        let prefix = bytes::copy_bytes(self.buf.as_slice(), self.pos, self.pos + LEN_PREFIX);
        assert(prefix@ =~= s.take(4));
        let len: u32 = vstd::bytes::u32_from_le_bytes(prefix.as_slice());
        if len > MAX_FRAME_LEN {
            return Err(ProtoError::FrameTooLarge { len });
        }
        let n: usize = len as usize;
        if avail - LEN_PREFIX < n {
            return Ok(None);
        }
        let from: usize = self.pos + LEN_PREFIX;
        let end: usize = from + n;
        let payload = bytes::copy_bytes(self.buf.as_slice(), from, end);
        assert(payload@ =~= s.subrange(4, 4 + len));
        match Message::from_payload(payload.as_slice()) {
            Err(cause) => Err(ProtoError::Decode(cause)),
            Ok(m) => {
                self.pos = end;
                assert(self@ =~= s.skip(4 + len));
                Ok(Some(m))
            },
        }
    }
}

impl Default for FrameDecoder {
    fn default() -> (d: Self)
        ensures
            d@ == Seq::<u8>::empty(),
            d.held() == Seq::<u8>::empty(),
    {
        FrameDecoder::new()
    }
}

// ---- laws ------------------------------------------------------------------
/// A message that fits a frame.
pub open spec fn frameable(m: MessageModel) -> bool {
    message::message_ok(m) && message::payload(m).len() <= MAX_FRAME_LEN
}

/// Law: a frame that was encoded is decoded, whatever follows it on the stream.
pub proof fn frame_round_trip(m: MessageModel, rest: Seq<u8>)
    requires
        frameable(m),
    ensures
        front(frame(m) + rest) == (Front::Message { message: m, rest }),
{
    let p = message::payload(m);
    let n = p.len() as u32;
    let s = frame(m) + rest;
    vstd::bytes::lemma_auto_spec_u32_to_from_le_bytes();
    assert(le32(n).len() == 4);
    assert(s.take(4) =~= le32(n));
    assert(from_le32(s.take(4)) == n);
    assert(s.subrange(4, 4 + n) =~= p);
    assert(s.skip(4 + n) =~= rest);
    message::message_round_trip(m, seq![]);
    assert(p + Seq::<u8>::empty() =~= p);
}

/// Law: before the last byte of a frame has arrived there is no message and no
/// error.
pub proof fn partial_frame_waits(m: MessageModel, k: int)
    requires
        frameable(m),
        0 <= k < frame(m).len(),
    ensures
        front(frame(m).take(k)) is Partial,
{
    let n = message::payload(m).len() as u32;
    let s = frame(m).take(k);
    vstd::bytes::lemma_auto_spec_u32_to_from_le_bytes();
    assert(le32(n).len() == 4);
    if k >= 4 {
        assert(s.take(4) =~= le32(n));
        assert(from_le32(s.take(4)) == n);
    }
}

/// The messages that draining a stream yields, and what is left.
pub open spec fn drain(s: Seq<u8>) -> (Seq<MessageModel>, Seq<u8>)
    decreases s.len(),
{
    match front(s) {
        Front::Message { message, rest } => if rest.len() < s.len() {
            let more = drain(rest);
            (seq![message] + more.0, more.1)
        } else {
            (seq![], s)
        },
        _ => (seq![], s),
    }
}

/// The frames of the messages, one after the other.
pub open spec fn frames(ms: Seq<MessageModel>) -> Seq<u8>
    decreases ms.len(),
{
    if ms.len() == 0 {
        seq![]
    } else {
        frame(ms[0]) + frames(ms.skip(1))
    }
}

/// Law: a stream of frames yields its messages in order, and what follows the
/// last whole frame stays buffered.
pub proof fn stream_round_trip(ms: Seq<MessageModel>, tail: Seq<u8>)
    requires
        forall|i: int| 0 <= i < ms.len() ==> frameable(#[trigger] ms[i]),
        front(tail) is Partial,
    ensures
        drain(frames(ms) + tail) == (ms, tail),
    decreases ms.len(),
{
    let s = frames(ms) + tail;
    if ms.len() == 0 {
        assert(s =~= tail);
        assert(ms =~= Seq::<MessageModel>::empty());
    } else {
        let t = ms.skip(1);
        assert forall|i: int| 0 <= i < t.len() implies frameable(#[trigger] t[i]) by {
            assert(t[i] == ms[i + 1]);
        }
        stream_round_trip(t, tail);
        assert(s =~= frame(ms[0]) + (frames(t) + tail));
        frame_round_trip(ms[0], frames(t) + tail);
        vstd::bytes::lemma_auto_spec_u32_to_from_le_bytes();
        assert(le32(message::payload(ms[0]).len() as u32).len() == 4);
        assert(seq![ms[0]] + t =~= ms);
    }
}

/// What is at the front does not change when more bytes arrive, once it is a
/// whole frame or an error.
proof fn front_is_stable(s: Seq<u8>, more: Seq<u8>)
    ensures
        match front(s) {
            Front::Partial => true,
            Front::Message { message, rest } => front(s + more) == (Front::Message {
                message,
                rest: rest + more,
            }),
            f => front(s + more) == f,
        },
{
    let t = s + more;
    if s.len() >= 4 {
        assert(t.take(4) =~= s.take(4));
        let len = from_le32(s.take(4));
        if len <= MAX_FRAME_LEN && s.len() >= 4 + len {
            assert(t.subrange(4, 4 + len) =~= s.subrange(4, 4 + len));
            assert(t.skip(4 + len) =~= s.skip(4 + len) + more);
        }
    }
}

/// Law: it does not matter how the stream is cut. Draining what has arrived and
/// then what arrives later yields the same messages as draining it all at once.
pub proof fn cutting_the_stream_changes_nothing(a: Seq<u8>, b: Seq<u8>)
    ensures
        drain(a + b).0 == drain(a).0 + drain(drain(a).1 + b).0,
        drain(a + b).1 == drain(drain(a).1 + b).1,
    decreases a.len(),
{
    front_is_stable(a, b);
    match front(a) {
        Front::Message { message, rest } => {
            if rest.len() < a.len() {
                cutting_the_stream_changes_nothing(rest, b);
                let more = drain(rest);
                assert(seq![message] + (more.0 + drain(more.1 + b).0) =~= (seq![message] + more.0)
                    + drain(more.1 + b).0);
            } else {
                assert(Seq::<MessageModel>::empty() + drain(a + b).0 =~= drain(a + b).0);
            }
        },
        _ => {
            assert(Seq::<MessageModel>::empty() + drain(a + b).0 =~= drain(a + b).0);
        },
    }
}

/// Law: an error is terminal. Once the stream starts with one, no further bytes
/// change it.
pub proof fn errors_are_terminal(s: Seq<u8>, more: Seq<u8>)
    requires
        front(s) is TooLarge || front(s) is Garbage,
    ensures
        front(s + more) == front(s),
{
    front_is_stable(s, more);
}

} // verus!
