//! Messages, payloads and frames.

use std::collections::BTreeMap;
use tomo::clock::{ReplicaId, VectorClock};
use tomo::event::{ChangeKind, RemoteChange};
use tomo::frame;
use tomo::frame::{ProtoError, MAX_FRAME_LEN};
use tomo::index::{ContentHash, ContentSig, Entry, EntryState, Index};
use tomo::message::{crate_name, Message, PROTOCOL_VERSION};
use tomo::path::RelPath;
use tomo::wireerror::WireError;

#[test]
fn scaffold_smoke() {
    assert_eq!(crate_name(), "tomo-proto");
}

// ---- Fixtures -------------------------------------------------------------

/// A clock ticked `count` times for each `(replica, count)` pair.
fn clock(spec: &[(u64, u64)]) -> VectorClock {
    let mut v = VectorClock::new();
    for &(r, count) in spec {
        for _ in 0..count {
            v.tick(ReplicaId(r));
        }
    }
    v
}

fn sig(byte: u8, size: u64) -> ContentSig {
    ContentSig {
        hash: ContentHash([byte; 32]),
        size,
        exec_bit: false,
        mtime_ms: u64::from(byte) * 1000,
    }
}

/// A realistic index: present files, a tombstone, and multi-replica clocks.
fn realistic_index() -> Index {
    let mut idx = Index::new();
    idx.upsert(
        RelPath::new("src/main.rs").unwrap(),
        Entry::single(
            clock(&[(1, 3), (2, 1)]),
            EntryState::Present(sig(0xaa, 4096)),
        ),
    );
    idx.upsert(
        RelPath::new("README.md").unwrap(),
        Entry::single(clock(&[(1, 1)]), EntryState::Present(sig(0x11, 128))),
    );
    idx.upsert(
        RelPath::new("docs/old.txt").unwrap(),
        Entry::single(clock(&[(2, 5)]), EntryState::Tombstone),
    );
    idx
}

/// One instance of every `Message` variant, using realistic payloads.
fn sample_messages() -> Vec<Message> {
    vec![
        Message::Hello {
            protocol: PROTOCOL_VERSION,
            binary_version: "0.1.0".to_owned(),
            replica: ReplicaId(42),
        },
        Message::IndexExchange(realistic_index()),
        Message::Change {
            change: RemoteChange {
                path: RelPath::new("src/lib.rs").unwrap(),
                kind: ChangeKind::Modified(sig(0x7f, 5)),
                version: clock(&[(1, 4), (2, 2)]),
            },
            bytes: Some(b"hello".to_vec()),
        },
        Message::Change {
            change: RemoteChange {
                path: RelPath::new("gone.txt").unwrap(),
                kind: ChangeKind::Removed,
                version: clock(&[(2, 9)]),
            },
            bytes: None,
        },
        Message::Ping { nonce: 0xdead_beef },
        Message::Pong { nonce: 0xdead_beef },
    ]
}

// ---- Example tests --------------------------------------------------------

#[test]
fn every_variant_round_trips_single_push() {
    for msg in sample_messages() {
        let bytes = frame::encode(&msg).unwrap();
        let mut dec = frame::FrameDecoder::new();
        dec.push(&bytes);
        assert_eq!(dec.next().unwrap(), Some(msg.clone()), "round-trip {msg:?}");
        // Nothing left over.
        assert_eq!(dec.next().unwrap(), None);
    }
}

#[test]
fn hello_round_trips_realistic_index() {
    // Hello carries no index, but IndexExchange does; verify a realistic index
    // (present entries, a tombstone, multi-replica clocks) survives the frame.
    let idx = realistic_index();
    let msg = Message::IndexExchange(idx.clone());
    let bytes = frame::encode(&msg).unwrap();
    let mut dec = frame::FrameDecoder::new();
    dec.push(&bytes);
    match dec.next().unwrap() {
        Some(Message::IndexExchange(got)) => assert_eq!(got, idx),
        other => panic!("expected IndexExchange, got {other:?}"),
    }
}

#[test]
fn many_messages_one_stream() {
    let msgs = sample_messages();
    let mut stream = Vec::new();
    for m in &msgs {
        stream.extend_from_slice(&frame::encode(m).unwrap());
    }
    let mut dec = frame::FrameDecoder::new();
    dec.push(&stream);
    let mut got = Vec::new();
    while let Some(m) = dec.next().unwrap() {
        got.push(m);
    }
    assert_eq!(got, msgs);
}

#[test]
fn incomplete_frame_yields_none_until_complete() {
    let msg = Message::IndexExchange(realistic_index());
    let bytes = frame::encode(&msg).unwrap();
    let mut dec = frame::FrameDecoder::new();

    // Feed everything but the last byte: never completes.
    let (head, tail) = bytes.split_at(bytes.len() - 1);
    dec.push(head);
    assert_eq!(dec.next().unwrap(), None);
    assert_eq!(dec.next().unwrap(), None); // repeatable

    // The final byte completes exactly one message.
    dec.push(tail);
    assert_eq!(dec.next().unwrap(), Some(msg));
    assert_eq!(dec.next().unwrap(), None);
}

#[test]
fn only_length_prefix_is_incomplete() {
    let msg = Message::Ping { nonce: 1 };
    let bytes = frame::encode(&msg).unwrap();
    let mut dec = frame::FrameDecoder::new();
    // Fewer than 4 bytes: cannot even read the length prefix.
    dec.push(&bytes[..2]);
    assert_eq!(dec.next().unwrap(), None);
    dec.push(&bytes[2..]);
    assert_eq!(dec.next().unwrap(), Some(msg));
}

#[test]
fn oversize_declared_length_is_fatal() {
    // Craft a frame whose declared length exceeds MAX_FRAME_LEN.
    let mut bytes = (MAX_FRAME_LEN + 1).to_le_bytes().to_vec();
    bytes.extend_from_slice(&[0u8; 8]); // some payload bytes; never inspected
    let mut dec = frame::FrameDecoder::new();
    dec.push(&bytes);
    match dec.next() {
        Err(ProtoError::FrameTooLarge { len }) => assert_eq!(len, MAX_FRAME_LEN + 1),
        other => panic!("expected FrameTooLarge, got {other:?}"),
    }
    // Terminal + stable: re-calling reports the same error (no silent skip).
    assert!(matches!(
        dec.next(),
        Err(ProtoError::FrameTooLarge { len }) if len == MAX_FRAME_LEN + 1
    ));
}

#[test]
fn corrupt_payload_is_decode_error() {
    let msg = Message::Ping { nonce: 5 };
    let mut bytes = frame::encode(&msg).unwrap();
    // Corrupt the enum discriminant byte (first payload byte) to an invalid
    // variant index so that it is rejected.
    let payload_start = 4;
    bytes[payload_start] = 0xff;
    let mut dec = frame::FrameDecoder::new();
    dec.push(&bytes);
    match dec.next() {
        Err(ProtoError::Decode(_)) => {}
        other => panic!("expected Decode error, got {other:?}"),
    }
    // Stable: the decoder did not advance past the bad frame.
    assert!(matches!(dec.next(), Err(ProtoError::Decode(_))));
}

fn manifest_change(size: u64) -> RemoteChange {
    RemoteChange {
        path: RelPath::new("big.bin").unwrap(),
        kind: ChangeKind::Modified(ContentSig {
            hash: ContentHash([9; 32]),
            size,
            exec_bit: false,
            mtime_ms: 0,
        }),
        version: clock(&[(3, 1)]),
    }
}

/// Feed `msg`'s frame through the decoder in one push and recover it.
fn round_trip(msg: &Message) -> Message {
    let bytes = frame::encode(msg).unwrap();
    let mut dec = frame::FrameDecoder::new();
    dec.push(&bytes);
    dec.next().unwrap().unwrap()
}

#[test]
fn change_manifest_round_trips() {
    let msg = Message::ChangeManifest {
        change: manifest_change(3 << 20),
        total_size: 3 << 20,
        manifest: vec![[1; 32], [2; 32], [3; 32]],
    };
    assert_eq!(round_trip(&msg), msg);
}

#[test]
fn chunk_request_round_trips() {
    let msg = Message::ChunkRequest {
        hashes: vec![[7; 32], [8; 32]],
    };
    assert_eq!(round_trip(&msg), msg);
}

#[test]
fn chunk_data_round_trips() {
    let msg = Message::ChunkData {
        hash: [4; 32],
        bytes: vec![0, 1, 2, 3, 4, 5],
    };
    assert_eq!(round_trip(&msg), msg);
}

// ---- any split -------------------------------------------------------------

/// Whatever the pieces in which the stream arrives, the same messages come out.
#[test]
fn arbitrary_chunking_preserves_sequence() {
    let mut msgs = sample_messages();
    msgs.push(Message::ChunkRequest { hashes: vec![] });
    let mut stream = Vec::new();
    for m in &msgs {
        stream.extend_from_slice(&frame::encode(m).unwrap());
    }
    for size in [1, 2, 3, 7, 17, 64] {
        let mut dec = frame::FrameDecoder::new();
        let mut got = Vec::new();
        for piece in stream.chunks(size) {
            dec.push(piece);
            while let Some(m) = dec.next().unwrap() {
                got.push(m);
            }
        }
        assert_eq!(got, msgs);
    }
}

#[test]
fn errors_say_what_is_wrong() {
    assert_eq!(
        ProtoError::FrameTooLarge { len: 300_000_000 }.message(),
        "frame length 300000000 exceeds maximum 268435456"
    );
    assert_eq!(
        ProtoError::Decode(WireError::DeserializeUnexpectedEnd).message(),
        "failed to decode message payload: Hit the end of buffer, expected more data"
    );
    assert_eq!(
        ProtoError::Encode(WireError::SerializeBufferFull).message(),
        "failed to encode message: The serialize buffer is full"
    );
}

#[test]
fn wire_failures_say_what_postcard_says() {
    let pairs = [
        (WireError::WontImplement, postcard::Error::WontImplement),
        (WireError::NotYetImplemented, postcard::Error::NotYetImplemented),
        (WireError::SerializeBufferFull, postcard::Error::SerializeBufferFull),
        (WireError::SerializeSeqLengthUnknown, postcard::Error::SerializeSeqLengthUnknown),
        (WireError::DeserializeUnexpectedEnd, postcard::Error::DeserializeUnexpectedEnd),
        (WireError::DeserializeBadVarint, postcard::Error::DeserializeBadVarint),
        (WireError::DeserializeBadBool, postcard::Error::DeserializeBadBool),
        (WireError::DeserializeBadChar, postcard::Error::DeserializeBadChar),
        (WireError::DeserializeBadUtf8, postcard::Error::DeserializeBadUtf8),
        (WireError::DeserializeBadOption, postcard::Error::DeserializeBadOption),
        (WireError::DeserializeBadEnum, postcard::Error::DeserializeBadEnum),
        (WireError::DeserializeBadEncoding, postcard::Error::DeserializeBadEncoding),
        (WireError::DeserializeBadCrc, postcard::Error::DeserializeBadCrc),
        (WireError::SerdeSerCustom, postcard::Error::SerdeSerCustom),
        (WireError::SerdeDeCustom, postcard::Error::SerdeDeCustom),
        (WireError::CollectStrError, postcard::Error::CollectStrError),
    ];
    for (ours, theirs) in pairs {
        assert_eq!(ours.message(), theirs.to_string());
        assert_eq!(format!("{ours:?}"), format!("{theirs:?}"));
    }
}

/// Why a payload holds no message.
fn cause(payload: &[u8]) -> WireError {
    let mut bytes = (payload.len() as u32).to_le_bytes().to_vec();
    bytes.extend_from_slice(payload);
    let mut dec = frame::FrameDecoder::new();
    dec.push(&bytes);
    match dec.next() {
        Err(ProtoError::Decode(cause)) => {
            assert_eq!(Message::from_payload(payload), Err(cause));
            cause
        }
        other => panic!("expected a decode error, got {other:?}"),
    }
}

#[test]
fn the_cause_of_a_bad_payload_is_told() {
    // A message that ends too early, anywhere.
    assert_eq!(cause(&[]), WireError::DeserializeUnexpectedEnd);
    for msg in sample_messages() {
        let whole = msg.to_payload();
        for n in 0..whole.len().min(40) {
            assert_eq!(cause(&whole[..n]), WireError::DeserializeUnexpectedEnd);
        }
    }
    // A tag that does not end, and one that means nothing.
    assert_eq!(cause(&[0xff; 8]), WireError::DeserializeBadVarint);
    assert_eq!(cause(&[8]), WireError::SerdeDeCustom);
    // A probe whose number is too large.
    let mut probe = vec![6];
    probe.extend_from_slice(&[0xff; 9]);
    probe.push(2);
    assert_eq!(cause(&probe), WireError::DeserializeBadVarint);
    // A greeting whose version is not UTF-8.
    assert_eq!(cause(&[0, 2, 1, 0xff, 1]), WireError::DeserializeBadUtf8);
    // A change: tag, path, kind, hash, size, execute flag, time, clock, content.
    let change = Message::Change {
        change: RemoteChange {
            path: RelPath::new("a").unwrap(),
            kind: ChangeKind::Modified(ContentSig {
                hash: ContentHash([9; 32]),
                size: 1,
                exec_bit: false,
                mtime_ms: 0,
            }),
            version: clock(&[(3, 1)]),
        },
        bytes: None,
    };
    let good = change.to_payload();
    assert_eq!(Message::from_payload(&good), Ok(change));
    let spoilt = |at: usize, byte: u8| {
        let mut bad = good.clone();
        bad[at] = byte;
        cause(&bad)
    };
    assert_eq!(spoilt(2, b'/'), WireError::SerdeDeCustom);
    assert_eq!(spoilt(3, 2), WireError::SerdeDeCustom);
    assert_eq!(spoilt(37, 2), WireError::DeserializeBadBool);
    assert_eq!(
        spoilt(good.len() - 1, 2),
        WireError::DeserializeBadOption
    );
}

#[test]
fn the_leaves_fail_as_postcard_fails() {
    let bad_number = [0xffu8; 11];
    assert_eq!(
        postcard::from_bytes::<u64>(&bad_number),
        Err(postcard::Error::DeserializeBadVarint)
    );
    assert_eq!(
        postcard::from_bytes::<Option<Vec<u8>>>(&[2]),
        Err(postcard::Error::DeserializeBadOption)
    );
    assert_eq!(
        postcard::from_bytes::<bool>(&[2]),
        Err(postcard::Error::DeserializeBadBool)
    );
    assert_eq!(
        postcard::from_bytes::<String>(&[1, 0xff]),
        Err(postcard::Error::DeserializeBadUtf8)
    );
    assert_eq!(
        postcard::from_bytes::<[u8; 32]>(&[0; 31]),
        Err(postcard::Error::DeserializeUnexpectedEnd)
    );
}

// ---- the format of payloads ------------------------------------------------
//
// A payload is what postcard makes of the same values: the number of the
// variant, then its fields.

type PlainSig = ([u8; 32], u64, bool, u64);

fn plain_sig(s: ContentSig) -> PlainSig {
    (s.hash.0, s.size, s.exec_bit, s.mtime_ms)
}

fn plain_clock(c: &VectorClock) -> BTreeMap<u64, u64> {
    c.iter().iter().map(|(r, n)| (r.0, *n)).collect()
}

fn payload(m: &Message) -> Vec<u8> {
    frame::encode(m).unwrap()[4..].to_vec()
}

/// The payload of `m` is `expected`, and is read back.
fn check(m: Message, expected: Vec<u8>) {
    assert_eq!(payload(&m), expected);
    assert_eq!(Message::from_payload(&expected), Ok(m));
}

#[test]
fn payloads_are_postcard() {
    let to = |m: Message, v: Vec<u8>| check(m, v);
    to(
        Message::Hello {
            protocol: 300,
            binary_version: "0.1.0-\u{e9}".to_owned(),
            replica: ReplicaId(u64::MAX),
        },
        postcard::to_allocvec(&(0u32, 300u16, "0.1.0-\u{e9}", u64::MAX)).unwrap(),
    );
    let clock1 = clock(&[(1, 4), (200, 2)]);
    let change = |kind| RemoteChange {
        path: RelPath::new("src/lib.rs").unwrap(),
        kind,
        version: clock1.clone(),
    };
    let s = ContentSig {
        exec_bit: true,
        ..sig(0x7f, 1 << 40)
    };
    to(
        Message::Change {
            change: change(ChangeKind::Modified(s)),
            bytes: Some(b"hello".to_vec()),
        },
        postcard::to_allocvec(&(
            2u32,
            ("src/lib.rs", (0u32, plain_sig(s)), plain_clock(&clock1)),
            Some(b"hello".to_vec()),
        ))
        .unwrap(),
    );
    to(
        Message::Change {
            change: change(ChangeKind::Removed),
            bytes: None,
        },
        postcard::to_allocvec(&(
            2u32,
            ("src/lib.rs", 1u32, plain_clock(&clock1)),
            None::<Vec<u8>>,
        ))
        .unwrap(),
    );
    to(
        Message::ChangeManifest {
            change: change(ChangeKind::Removed),
            total_size: 77,
            manifest: vec![[1; 32], [2; 32]],
        },
        postcard::to_allocvec(&(
            3u32,
            ("src/lib.rs", 1u32, plain_clock(&clock1)),
            77u64,
            vec![[1u8; 32], [2u8; 32]],
        ))
        .unwrap(),
    );
    to(
        Message::ChunkRequest {
            hashes: vec![[7; 32]; 200],
        },
        postcard::to_allocvec(&(4u32, vec![[7u8; 32]; 200])).unwrap(),
    );
    to(
        Message::ChunkData {
            hash: [4; 32],
            bytes: vec![9; 1000],
        },
        postcard::to_allocvec(&(5u32, [4u8; 32], vec![9u8; 1000])).unwrap(),
    );
    to(
        Message::Ping { nonce: 0xdead_beef },
        postcard::to_allocvec(&(6u32, 0xdead_beefu64)).unwrap(),
    );
    to(
        Message::Pong { nonce: 1 },
        postcard::to_allocvec(&(7u32, 1u64)).unwrap(),
    );
}

#[test]
fn index_payloads_are_postcard() {
    let a = clock(&[(1, 3), (2, 1)]);
    let b = clock(&[(2, 5)]);
    let mut idx = Index::new();
    idx.upsert(
        RelPath::new("b").unwrap(),
        Entry::single(a.clone(), EntryState::Present(sig(0xaa, 4096))),
    );
    idx.upsert(
        RelPath::new("c").unwrap(),
        Entry::single(b.clone(), EntryState::Present(sig(0x11, 1))),
    );
    let mut plain: BTreeMap<&str, Vec<(BTreeMap<u64, u64>, (u32, PlainSig))>> = BTreeMap::new();
    plain.insert("b", vec![(plain_clock(&a), (0, plain_sig(sig(0xaa, 4096))))]);
    plain.insert("c", vec![(plain_clock(&b), (0, plain_sig(sig(0x11, 1))))]);
    check(
        Message::IndexExchange(idx),
        postcard::to_allocvec(&(1u32, plain)).unwrap(),
    );

    let mut gone = Index::new();
    gone.upsert(
        RelPath::new("docs/old.txt").unwrap(),
        Entry::single(b.clone(), EntryState::Tombstone),
    );
    let mut plain: BTreeMap<&str, Vec<(BTreeMap<u64, u64>, u32)>> = BTreeMap::new();
    plain.insert("docs/old.txt", vec![(plain_clock(&b), 1)]);
    check(
        Message::IndexExchange(gone),
        postcard::to_allocvec(&(1u32, plain)).unwrap(),
    );
}

/// Numbers that are written with too many bytes, or that do not fit, are
/// rejected or accepted as postcard does.
#[test]
fn odd_numbers_are_read_as_postcard_reads_them() {
    let mut cases: Vec<Vec<u8>> = Vec::new();
    for n in 1..12 {
        for last in [0u8, 1, 2, 3, 0x0f, 0x10, 0x7f] {
            let mut v = vec![0x80u8; n - 1];
            v.push(last);
            cases.push(v);
        }
    }
    cases.push(vec![]);
    cases.push(vec![0xff; 3]);
    for number in cases {
        let mut payload = vec![6u8];
        payload.extend_from_slice(&number);
        let theirs = postcard::from_bytes::<(u32, u64)>(&payload);
        let ours = Message::from_payload(&payload);
        match (theirs, ours) {
            (Ok((_, n)), Ok(Message::Ping { nonce })) => assert_eq!(n, nonce),
            (Err(theirs), Err(ours)) => assert_eq!(format!("{theirs:?}"), format!("{ours:?}")),
            (theirs, ours) => panic!("{number:?}: {theirs:?} against {ours:?}"),
        }
    }
}
