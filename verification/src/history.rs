//! The rows of the history tables, what they mean, and what can be wrong with
//! them.
//!
//! History is three tables. `chunks` holds packed pieces of content under their
//! digests; `versions` holds one row per recorded version of a path; `conflicts`
//! pairs a winning with a losing version. A row is plain data as a database
//! returns it: integers are 64-bit signed, and nothing about its shape is
//! taken for granted.

use crate::bytes;
use crate::path;
use crate::path::RelPath;
use crate::text;
use crate::wireerror::WireError;
use vstd::prelude::*;

verus! {

// ---- identifiers and numbers -----------------------------------------------
/// A monotonically increasing version identifier.
#[derive(Debug, Clone, Copy, PartialEq, Eq, PartialOrd, Ord, Hash)]
pub struct VersionId(pub i64);

/// A conflict-record identifier.
#[derive(Debug, Clone, Copy, PartialEq, Eq, PartialOrd, Ord, Hash)]
pub struct ConflictId(pub i64);

/// Where a recorded version came from. Recorded for display; never used for
/// ordering.
#[derive(Debug, Clone, Copy, PartialEq, Eq)]
pub enum Origin {
    /// The version was authored on this replica.
    Local,
    /// The version was received from the remote peer.
    Remote,
}

impl Origin {
    /// The integer that stands for this origin in a row.
    pub open spec fn number(self) -> i64 {
        match self {
            Origin::Local => 0,
            Origin::Remote => 1,
        }
    }

    /// The origin that an integer of a row stands for: 0 is local, anything else
    /// remote.
    pub open spec fn of(n: i64) -> Origin {
        if n == 0 {
            Origin::Local
        } else {
            Origin::Remote
        }
    }

    /// The integer that stands for this origin in a row.
    pub fn as_i64(self) -> (n: i64)
        ensures
            n == self.number(),
    {
        match self {
            Origin::Local => 0,
            Origin::Remote => 1,
        }
    }

    /// The origin that an integer of a row stands for.
    pub fn from_i64(n: i64) -> (o: Origin)
        ensures
            o == Origin::of(n),
    {
        if n == 0 {
            Origin::Local
        } else {
            Origin::Remote
        }
    }
}

/// The integer that holds `v` in a row: the same 64 bits.
pub open spec fn to_sql(v: u64) -> i64 {
    v as i64
}

/// The number that an integer of a row holds: the same 64 bits.
pub open spec fn from_sql(n: i64) -> u64 {
    n as u64
}

/// The integer that holds `v` in a row.
pub fn to_sql_int(v: u64) -> (n: i64)
    ensures
        n == to_sql(v),
{
    #[verifier::truncate]
    (v as i64)
}

/// The number that an integer of a row holds.
pub fn from_sql_int(n: i64) -> (v: u64)
    ensures
        v == from_sql(n),
{
    #[verifier::truncate]
    (n as u64)
}

/// Law: a number put into a row is read back from it, and so is an origin.
pub proof fn numbers_round_trip(v: u64, o: Origin)
    ensures
        from_sql(to_sql(v)) == v,
        v <= i64::MAX ==> to_sql(v) == v,
        Origin::of(o.number()) == o,
{
    assert((v as i64) as u64 == v) by (bit_vector);
}

// ---- rows ------------------------------------------------------------------
/// A row of the chunk table: a piece of content, packed, under its digest.
#[derive(Debug, Clone, PartialEq, Eq)]
pub struct ChunkRow {
    /// The digest of the plain bytes.
    pub hash: Vec<u8>,
    /// How many plain bytes there are.
    pub size: i64,
    /// The packed bytes.
    pub zdata: Vec<u8>,
}

/// A chunk row as a mathematical value.
#[verifier::ext_equal]
pub ghost struct ChunkModel {
    /// The digest of the plain bytes.
    pub hash: Seq<u8>,
    /// How many plain bytes there are.
    pub size: i64,
    /// The packed bytes.
    pub zdata: Seq<u8>,
}

impl View for ChunkRow {
    type V = ChunkModel;

    open spec fn view(&self) -> ChunkModel {
        ChunkModel { hash: self.hash@, size: self.size, zdata: self.zdata@ }
    }
}

/// A row of the version table.
#[derive(Debug, Clone, PartialEq, Eq)]
pub struct VersionRow {
    /// The version's identifier.
    pub id: i64,
    /// The path that the version is of.
    pub path: String,
    /// 0 for a tombstone, otherwise present.
    pub state: i64,
    /// The digest of the whole content.
    pub content_hash: Option<Vec<u8>>,
    /// The size of the content.
    pub size: Option<i64>,
    /// The digests of the content's chunks, one after the other.
    pub manifest: Option<Vec<u8>>,
    /// The vector clock in its wire form.
    pub clock: Vec<u8>,
    /// The authoring replica.
    pub replica: i64,
    /// Milliseconds since the Unix epoch, for display only.
    pub wall_ms: i64,
    /// 0 for local, otherwise remote.
    pub origin: i64,
    /// Whether the file is executable: not 0.
    pub exec_bit: i64,
}

/// A version row as a mathematical value.
#[verifier::ext_equal]
pub ghost struct VersionModel {
    /// The version's identifier.
    pub id: i64,
    /// The path that the version is of.
    pub path: Seq<char>,
    /// 0 for a tombstone, otherwise present.
    pub state: i64,
    /// The digest of the whole content.
    pub content_hash: Option<Seq<u8>>,
    /// The size of the content.
    pub size: Option<i64>,
    /// The digests of the content's chunks, one after the other.
    pub manifest: Option<Seq<u8>>,
    /// The vector clock in its wire form.
    pub clock: Seq<u8>,
    /// The authoring replica.
    pub replica: i64,
    /// Milliseconds since the Unix epoch.
    pub wall_ms: i64,
    /// 0 for local, otherwise remote.
    pub origin: i64,
    /// Whether the file is executable: not 0.
    pub exec_bit: i64,
}

/// Optional bytes by their view.
pub open spec fn optional(b: Option<Vec<u8>>) -> Option<Seq<u8>> {
    match b {
        Some(v) => Some(v@),
        None => None,
    }
}

impl View for VersionRow {
    type V = VersionModel;

    open spec fn view(&self) -> VersionModel {
        VersionModel {
            id: self.id,
            path: self.path@,
            state: self.state,
            content_hash: optional(self.content_hash),
            size: self.size,
            manifest: optional(self.manifest),
            clock: self.clock@,
            replica: self.replica,
            wall_ms: self.wall_ms,
            origin: self.origin,
            exec_bit: self.exec_bit,
        }
    }
}

/// A row of the conflict table.
#[derive(Debug, Clone, PartialEq, Eq)]
pub struct ConflictRow {
    /// The conflict's identifier.
    pub id: i64,
    /// The path that the conflict occurred on.
    pub path: String,
    /// The winning version.
    pub winner: i64,
    /// The losing version.
    pub loser: i64,
    /// Milliseconds since the Unix epoch, for display only.
    pub wall_ms: i64,
    /// Whether the conflict has been resolved: not 0.
    pub resolved: i64,
}

/// A conflict row as a mathematical value.
#[verifier::ext_equal]
pub ghost struct ConflictModel {
    /// The conflict's identifier.
    pub id: i64,
    /// The path that the conflict occurred on.
    pub path: Seq<char>,
    /// The winning version.
    pub winner: i64,
    /// The losing version.
    pub loser: i64,
    /// Milliseconds since the Unix epoch.
    pub wall_ms: i64,
    /// Whether the conflict has been resolved: not 0.
    pub resolved: i64,
}

impl View for ConflictRow {
    type V = ConflictModel;

    open spec fn view(&self) -> ConflictModel {
        ConflictModel {
            id: self.id,
            path: self.path@,
            winner: self.winner,
            loser: self.loser,
            wall_ms: self.wall_ms,
            resolved: self.resolved,
        }
    }
}

// ---- errors ----------------------------------------------------------------
/// What can be wrong with what is recorded, or with what is to be recorded.
#[derive(Debug, Clone, PartialEq, Eq)]
#[non_exhaustive]
pub enum HistoryError {
    /// The database refuses a change. It holds what the database says.
    Sqlite(String),
    /// A stored vector clock cannot be read.
    Clock(WireError),
    /// A present version was to be recorded without its content.
    MissingContent {
        /// The path whose version was being recorded.
        path: RelPath,
    },
    /// The content does not hash (or size) to the declared signature.
    SigMismatch {
        /// The path whose version was being recorded.
        path: RelPath,
        /// The declared hash in hexadecimal.
        declared: String,
        /// The hash of the content in hexadecimal.
        actual: String,
    },
    /// A version referenced by id does not exist.
    NoSuchVersion(i64),
    /// The content of a tombstone was asked for.
    NotPresent(i64),
    /// A version's manifest references a chunk that is absent.
    MissingChunk {
        /// The version whose manifest references the chunk.
        version: i64,
        /// The absent chunk's hash in hexadecimal.
        hash: String,
    },
    /// A stored chunk does not unpack to bytes of its size and hash.
    CorruptChunk {
        /// The chunk's hash in hexadecimal.
        hash: String,
        /// What was wrong.
        detail: String,
    },
    /// The reassembled content does not have the version's hash.
    ContentMismatch {
        /// The version being read.
        version: i64,
        /// The hash that the version records, in hexadecimal.
        expected: String,
        /// The hash of the reassembled content, in hexadecimal.
        actual: String,
    },
    /// A stored value has an unexpected shape.
    Malformed(String),
}

/// An error as a mathematical value.
#[allow(inconsistent_fields)]
pub ghost enum Fault {
    /// The database refuses a change.
    Sqlite(Seq<char>),
    /// A stored vector clock cannot be read.
    Clock(WireError),
    /// A present version was to be recorded without its content.
    MissingContent { path: Seq<char> },
    /// The content does not hash (or size) to the declared signature.
    SigMismatch { path: Seq<char>, declared: Seq<char>, actual: Seq<char> },
    /// A version referenced by id does not exist.
    NoSuchVersion(i64),
    /// The content of a tombstone was asked for.
    NotPresent(i64),
    /// A version's manifest references a chunk that is absent.
    MissingChunk { version: i64, hash: Seq<char> },
    /// A stored chunk does not unpack to bytes of its size and hash.
    CorruptChunk { hash: Seq<char>, detail: Seq<char> },
    /// The reassembled content does not have the version's hash.
    ContentMismatch { version: i64, expected: Seq<char>, actual: Seq<char> },
    /// A stored value has an unexpected shape.
    Malformed(Seq<char>),
}

impl View for HistoryError {
    type V = Fault;

    open spec fn view(&self) -> Fault {
        match *self {
            HistoryError::Sqlite(s) => Fault::Sqlite(s@),
            HistoryError::Clock(cause) => Fault::Clock(cause),
            HistoryError::MissingContent { path } => Fault::MissingContent { path: path@ },
            HistoryError::SigMismatch { path, declared, actual } => Fault::SigMismatch {
                path: path@,
                declared: declared@,
                actual: actual@,
            },
            HistoryError::NoSuchVersion(n) => Fault::NoSuchVersion(n),
            HistoryError::NotPresent(n) => Fault::NotPresent(n),
            HistoryError::MissingChunk { version, hash } => Fault::MissingChunk {
                version,
                hash: hash@,
            },
            HistoryError::CorruptChunk { hash, detail } => Fault::CorruptChunk {
                hash: hash@,
                detail: detail@,
            },
            HistoryError::ContentMismatch { version, expected, actual } => Fault::ContentMismatch {
                version,
                expected: expected@,
                actual: actual@,
            },
            HistoryError::Malformed(s) => Fault::Malformed(s@),
        }
    }
}

impl Fault {
    /// What the error says.
    pub open spec fn text(self) -> Seq<char> {
        match self {
            Fault::Sqlite(s) => "sqlite error: "@ + s,
            Fault::Clock(cause) => "clock serialization error: "@ + cause.text(),
            Fault::MissingContent { path } => "cannot record a present version of "@ + path
                + " without content bytes"@,
            Fault::SigMismatch { path, declared, actual } => "content signature mismatch for "@
                + path + ": declared "@ + declared + ", actual "@ + actual,
            Fault::NoSuchVersion(n) => "no such version: "@ + text::integer(n as int),
            Fault::NotPresent(n) => "version "@ + text::integer(n as int)
                + " is a tombstone and has no content"@,
            Fault::MissingChunk { version, hash } => "version "@ + text::integer(version as int)
                + " references missing chunk "@ + hash,
            Fault::CorruptChunk { hash, detail } => "corrupt chunk "@ + hash + ": "@ + detail,
            Fault::ContentMismatch { version, expected, actual } =>
                "content hash mismatch for version "@ + text::integer(version as int)
                    + ": expected "@ + expected + ", got "@ + actual,
            Fault::Malformed(s) => "malformed stored data: "@ + s,
        }
    }
}

impl HistoryError {
    /// The message of this error.
    pub fn message(&self) -> (m: String)
        ensures
            m@ == self@.text(),
    {
        let mut v: Vec<char> = Vec::new();
        match self {
            HistoryError::Sqlite(s) => {
                text::push_text(&mut v, "sqlite error: ");
                text::push_text(&mut v, s.as_str());
            },
            HistoryError::Clock(cause) => {
                text::push_text(&mut v, "clock serialization error: ");
                text::push_text(&mut v, cause.message());
            },
            HistoryError::MissingContent { path } => {
                text::push_text(&mut v, "cannot record a present version of ");
                text::push_text(&mut v, path.as_str());
                text::push_text(&mut v, " without content bytes");
            },
            HistoryError::SigMismatch { path, declared, actual } => {
                text::push_text(&mut v, "content signature mismatch for ");
                text::push_text(&mut v, path.as_str());
                text::push_text(&mut v, ": declared ");
                text::push_text(&mut v, declared.as_str());
                text::push_text(&mut v, ", actual ");
                text::push_text(&mut v, actual.as_str());
            },
            HistoryError::NoSuchVersion(n) => {
                text::push_text(&mut v, "no such version: ");
                push_integer(&mut v, *n);
            },
            HistoryError::NotPresent(n) => {
                text::push_text(&mut v, "version ");
                push_integer(&mut v, *n);
                text::push_text(&mut v, " is a tombstone and has no content");
            },
            HistoryError::MissingChunk { version, hash } => {
                text::push_text(&mut v, "version ");
                push_integer(&mut v, *version);
                text::push_text(&mut v, " references missing chunk ");
                text::push_text(&mut v, hash.as_str());
            },
            HistoryError::CorruptChunk { hash, detail } => {
                text::push_text(&mut v, "corrupt chunk ");
                text::push_text(&mut v, hash.as_str());
                text::push_text(&mut v, ": ");
                text::push_text(&mut v, detail.as_str());
            },
            HistoryError::ContentMismatch { version, expected, actual } => {
                text::push_text(&mut v, "content hash mismatch for version ");
                push_integer(&mut v, *version);
                text::push_text(&mut v, ": expected ");
                text::push_text(&mut v, expected.as_str());
                text::push_text(&mut v, ", got ");
                text::push_text(&mut v, actual.as_str());
            },
            HistoryError::Malformed(s) => {
                text::push_text(&mut v, "malformed stored data: ");
                text::push_text(&mut v, s.as_str());
            },
        }
        assert(v@ =~= self@.text());
        text::string_of(v.as_slice())
    }
}

/// Append the decimal numeral of `n`.
pub fn push_integer(v: &mut Vec<char>, n: i64)
    ensures
        final(v)@ == old(v)@ + text::integer(n as int),
{
    let d = text::integer_of(n);
    text::push_all(v, d.as_slice());
}

/// Append the decimal numeral of `n`.
pub fn push_number(v: &mut Vec<char>, n: u64)
    ensures
        final(v)@ == old(v)@ + text::decimal(n as nat),
{
    let d = text::decimal_of(n);
    text::push_all(v, d.as_slice());
}

} // verus!
