//! Changes.

use tomo::clock::{ReplicaId, VectorClock};
use tomo::event::{ChangeKind, LocalChange, RemoteChange};
use tomo::index::{ContentHash, ContentSig};
use tomo::path::RelPath;


fn sig() -> ContentSig {
    ContentSig {
        hash: ContentHash([7; 32]),
        size: 42,
        exec_bit: false,
        mtime_ms: 0,
    }
}

#[test]
fn local_change_constructs() {
    let c = LocalChange {
        path: RelPath::new("a/b.txt").unwrap(),
        kind: ChangeKind::Modified(sig()),
    };
    assert_eq!(c.kind, ChangeKind::Modified(sig()));
}

#[test]
fn remote_change_carries_clock() {
    let mut v = VectorClock::new();
    v.tick(ReplicaId(1));
    let c = RemoteChange {
        path: RelPath::new("gone").unwrap(),
        kind: ChangeKind::Removed,
        version: v.clone(),
    };
    assert_eq!(c.version, v);
    assert_eq!(c.kind, ChangeKind::Removed);
}
