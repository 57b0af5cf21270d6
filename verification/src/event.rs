//! Canonical change events fed into the sync engine.
//!
//! Creation and modification are the same event, [`ChangeKind::Modified`]. A
//! rename is a removal at the old path and a modification at the new one.

use crate::clock::VectorClock;
use crate::index::ContentSig;
use crate::path::RelPath;
use vstd::prelude::*;

verus! {

/// What happened to a path: its content is now some signature, or it is gone.
#[derive(Debug, Clone, Copy, PartialEq, Eq)]
pub enum ChangeKind {
    /// The path now has this content (covers both creation and modification).
    Modified(ContentSig),
    /// The path was deleted.
    Removed,
}

/// A change observed on the local filesystem. It carries no clock: the engine
/// stamps the local version when it takes the change in.
#[derive(Debug, PartialEq, Eq)]
pub struct LocalChange {
    /// The affected path.
    pub path: RelPath,
    /// What happened to it.
    pub kind: ChangeKind,
}

impl Clone for LocalChange {
    fn clone(&self) -> (c: Self)
        ensures
            c.path@ == self.path@,
            c.kind == self.kind,
    {
        LocalChange { path: self.path.clone(), kind: self.kind }
    }
}

/// A change received from the peer replica, with its vector clock.
#[derive(Debug, PartialEq, Eq)]
pub struct RemoteChange {
    /// The affected path.
    pub path: RelPath,
    /// What happened to it.
    pub kind: ChangeKind,
    /// The peer's vector clock for this change (causality evidence).
    pub version: VectorClock,
}

impl Clone for RemoteChange {
    fn clone(&self) -> (c: Self)
        ensures
            c.path@ == self.path@,
            c.kind == self.kind,
            c.version@ == self.version@,
    {
        RemoteChange { path: self.path.clone(), kind: self.kind, version: self.version.clone() }
    }
}

} // verus!
