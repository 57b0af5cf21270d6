//! The content-addressed history store.
//!
//! A [`HistoryStore`] holds the three history tables. Content is cut into chunks
//! that are stored once under their digests; a version row references the chunks
//! of its content. Recording is idempotent: a version whose path, state and
//! clock are already there adds no row. Wall-clock times are kept for display
//! and decide nothing.

use crate::bytes;
use crate::chunking;
use crate::clock::{ReplicaId, VectorClock};
use crate::digest;
use crate::history;
use crate::history::{
    ChunkModel, ChunkRow, ConflictId, ConflictModel, ConflictRow, Fault, HistoryError, Origin,
    VersionId, VersionModel, VersionRow,
};
use crate::index::{ContentHash, EntryState};
use crate::integrity;
use crate::integrity::CheckReport;
use crate::migration;
use crate::path::RelPath;
use crate::queries;
use crate::queries::{ConflictRecord, ConflictView, PathHistory, PathModel};
use crate::reading;
use crate::reading::{MetaModel, VersionMeta};
use crate::recording;
use crate::recording::{Plan, RecordModel, VersionRecord};
use vstd::prelude::*;

verus! {

/// The tables as mathematical values.
#[verifier::ext_equal]
pub ghost struct StoreModel {
    /// The chunks.
    pub chunks: Seq<ChunkModel>,
    /// The versions, by ascending identifier.
    pub versions: Seq<VersionModel>,
    /// The conflicts, by ascending identifier.
    pub conflicts: Seq<ConflictModel>,
    /// The largest version identifier given out.
    pub last_version: i64,
    /// The largest conflict identifier given out.
    pub last_conflict: i64,
}

/// Whether a version with the identifier is recorded.
pub open spec fn has_version(vs: Seq<VersionModel>, id: i64) -> bool {
    exists|i: int| 0 <= i < vs.len() && (#[trigger] vs[i]).id == id
}

/// The versions are listed by ascending identifier, up to the last given out.
pub open spec fn versions_ok(vs: Seq<VersionModel>, last: i64) -> bool {
    &&& forall|i: int, j: int|
        0 <= i < j < vs.len() ==> (#[trigger] vs[i]).id < (#[trigger] vs[j]).id
    &&& forall|i: int| 0 <= i < vs.len() ==> (#[trigger] vs[i]).id <= last
}

/// The conflicts are listed by ascending identifier, up to the last given out,
/// and reference recorded versions.
pub open spec fn conflicts_ok(cs: Seq<ConflictModel>, last: i64, vs: Seq<VersionModel>) -> bool {
    &&& forall|i: int, j: int|
        0 <= i < j < cs.len() ==> (#[trigger] cs[i]).id < (#[trigger] cs[j]).id
    &&& forall|i: int|
        0 <= i < cs.len() ==> (#[trigger] cs[i]).id <= last && has_version(vs, cs[i].winner)
            && has_version(vs, cs[i].loser)
}

/// What every store keeps: versions and conflicts are listed by ascending
/// identifier, and conflicts reference recorded versions.
pub open spec fn store_ok(m: StoreModel) -> bool {
    versions_ok(m.versions, m.last_version) && conflicts_ok(
        m.conflicts,
        m.last_conflict,
        m.versions,
    )
}

// ---- what recording does ---------------------------------------------------
/// The chunks with the given rows added, where their keys are not there yet.
pub open spec fn with_chunks(chunks: Seq<ChunkModel>, rows: Seq<ChunkModel>) -> Seq<ChunkModel>
    decreases rows.len(),
{
    if rows.len() == 0 {
        chunks
    } else {
        let before = with_chunks(chunks, rows.drop_last());
        if reading::chunk_at(before, rows.last().hash) is Some {
            before
        } else {
            before.push(rows.last())
        }
    }
}

/// How many bytes the pieces hold whose chunks are not there yet, each counted
/// once.
pub open spec fn fresh_bytes(chunks: Seq<ChunkModel>, ps: Seq<Seq<u8>>) -> nat
    decreases ps.len(),
{
    if ps.len() == 0 {
        0
    } else {
        let p = ps.last();
        let before = with_chunks(chunks, recording::chunk_rows(ps.drop_last()));
        fresh_bytes(chunks, ps.drop_last()) + (if reading::chunk_at(
            before,
            digest::digest(p).0@,
        ) is Some {
            0nat
        } else {
            p.len()
        })
    }
}

/// The tables after a version's rows were added where they are not there yet, and
/// the version's identifier.
pub open spec fn inserted(m: StoreModel, rows: Seq<ChunkModel>, v: VersionModel) -> (
    StoreModel,
    i64,
) {
    let stored = StoreModel { chunks: with_chunks(m.chunks, rows), ..m };
    let at = queries::find_identity(m.versions, v, 0);
    if at < m.versions.len() {
        (stored, m.versions[at].id)
    } else {
        let id = (m.last_version + 1) as i64;
        (
            StoreModel {
                versions: m.versions.push(VersionModel { id, ..v }),
                last_version: id,
                ..stored
            },
            id,
        )
    }
}

/// The tables after a version was recorded, and its identifier; or why it cannot
/// be recorded.
pub open spec fn recorded(m: StoreModel, r: RecordModel) -> Result<(StoreModel, i64), Fault> {
    match recording::record_fault(r) {
        Some(e) => Err(e),
        None => Ok(
            inserted(
                m,
                recording::chunk_rows(recording::record_pieces(r)),
                recording::row_of(r),
            ),
        ),
    }
}

/// The tables after versions were recorded one after the other, and their
/// identifiers; or why the first that cannot be recorded cannot.
pub open spec fn all_recorded(m: StoreModel, rs: Seq<RecordModel>) -> Result<
    (StoreModel, Seq<i64>),
    Fault,
>
    decreases rs.len(),
{
    if rs.len() == 0 {
        Ok((m, seq![]))
    } else {
        match all_recorded(m, rs.drop_last()) {
            Err(e) => Err(e),
            Ok((t, ids)) => match recorded(t, rs.last()) {
                Err(e) => Err(e),
                Ok((u, id)) => Ok((u, ids.push(id))),
            },
        }
    }
}

/// The records by their views.
pub open spec fn record_models(rs: Seq<VersionRecord<'_>>) -> Seq<RecordModel> {
    Seq::new(rs.len(), |i: int| rs[i]@)
}

/// The identifiers as integers.
pub open spec fn id_numbers(ids: Seq<VersionId>) -> Seq<i64> {
    Seq::new(ids.len(), |i: int| ids[i].0)
}

/// Adding a version keeps the tables in order.
pub proof fn inserted_ok(m: StoreModel, rows: Seq<ChunkModel>, v: VersionModel)
    requires
        store_ok(m),
        m.last_version < i64::MAX,
    ensures
        store_ok(inserted(m, rows, v).0),
        m.last_version <= inserted(m, rows, v).0.last_version <= m.last_version + 1,
        has_version(inserted(m, rows, v).0.versions, inserted(m, rows, v).1),
        forall|id: i64|
            has_version(m.versions, id) ==> #[trigger] has_version(
                inserted(m, rows, v).0.versions,
                id,
            ),
{
    let t = inserted(m, rows, v).0;
    let at = queries::find_identity(m.versions, v, 0);
    queries::find_identity_spec(m.versions, v, 0);
    if at < m.versions.len() {
        assert(m.versions[at].id == inserted(m, rows, v).1);
    } else {
        let id = (m.last_version + 1) as i64;
        assert(t.versions.last().id == id);
        assert(t.versions[t.versions.len() - 1].id == id);
        assert forall|x: i64| has_version(m.versions, x) implies #[trigger] has_version(
            t.versions,
            x,
        ) by {
            let i = choose|i: int| 0 <= i < m.versions.len() && (#[trigger] m.versions[i]).id == x;
            assert(t.versions[i] == m.versions[i]);
        }
    }
}

// ---- the store -------------------------------------------------------------
/// The history tables.
#[derive(Debug, Clone, PartialEq, Eq)]
pub struct HistoryStore {
    chunks: Vec<ChunkRow>,
    versions: Vec<VersionRow>,
    conflicts: Vec<ConflictRow>,
    last_version: i64,
    last_conflict: i64,
}

impl View for HistoryStore {
    type V = StoreModel;

    closed spec fn view(&self) -> StoreModel {
        StoreModel {
            chunks: reading::chunk_models(self.chunks@),
            versions: queries::version_models(self.versions@),
            conflicts: queries::conflict_models(self.conflicts@),
            last_version: self.last_version,
            last_conflict: self.last_conflict,
        }
    }
}

/// Add the chunks whose keys are not there yet; how many plain bytes they hold.
fn add_chunks(chunks: &mut Vec<ChunkRow>, rows: Vec<ChunkRow>, Ghost(ps): Ghost<Seq<Seq<u8>>>)
    -> (n: u64)
    requires
        reading::chunk_models(rows@) == recording::chunk_rows(ps),
        chunking::joined(ps).len() <= u64::MAX,
    ensures
        reading::chunk_models(final(chunks)@) == with_chunks(
            reading::chunk_models(old(chunks)@),
            recording::chunk_rows(ps),
        ),
        n == fresh_bytes(reading::chunk_models(old(chunks)@), ps),
{
    let ghost start = reading::chunk_models(chunks@);
    let ghost all = recording::chunk_rows(ps);
    assert(reading::chunk_models(rows@).len() == rows@.len());
    assert forall|j: int| 0 <= j < rows@.len() implies (#[trigger] rows@[j])@ == all[j] by {
        assert(reading::chunk_models(rows@)[j] == all[j]);
    }
    let mut rows = rows;
    let mut n: u64 = 0;
    let mut i: usize = 0;
    assert(all.take(0) =~= Seq::<ChunkModel>::empty());
    assert(ps.take(0) =~= Seq::<Seq<u8>>::empty());
    while i < rows.len()
        invariant
            i <= rows@.len(),
            rows@.len() == ps.len(),
            all == recording::chunk_rows(ps),
            chunking::joined(ps).len() <= u64::MAX,
            forall|j: int| i <= j < rows@.len() ==> (#[trigger] rows@[j])@ == all[j],
            reading::chunk_models(chunks@) == with_chunks(start, all.take(i as int)),
            n == fresh_bytes(start, ps.take(i as int)),
            n <= chunking::joined(ps.take(i as int)).len(),
        decreases rows@.len() - i,
    {
        let ghost before = chunks@;
        let mut row = ChunkRow { hash: Vec::new(), size: 0, zdata: Vec::new() };
        std::mem::swap(&mut row, &mut rows[i]);
        proof {
            assert(row@ == all[i as int]);
            assert(row@ == recording::chunk_row(ps[i as int]));
            assert(all.take(i + 1).drop_last() =~= all.take(i as int));
            assert(ps.take(i + 1).drop_last() =~= ps.take(i as int));
            assert(recording::chunk_rows(ps.take(i as int)) =~= all.take(i as int));
            joined_prefix(ps, i + 1);
            history::numbers_round_trip(ps[i as int].len() as u64, Origin::Local);
            piece_fits(ps, i as int);
        }
        let at = reading::position_of_chunk(chunks, row.hash.as_slice());
        if at.is_none() {
            let size: u64 = history::from_sql_int(row.size);
            n = n + size;
            chunks.push(row);
            assert(reading::chunk_models(chunks@) =~= reading::chunk_models(before).push(
                all[i as int],
            ));
        }
        i = i + 1;
    }
    assert(all.take(i as int) =~= all);
    assert(ps.take(i as int) =~= ps);
    n
}

/// A prefix holds no more than the whole.
proof fn joined_prefix(ps: Seq<Seq<u8>>, k: int)
    requires
        0 <= k <= ps.len(),
    ensures
        chunking::joined(ps.take(k)).len() <= chunking::joined(ps).len(),
    decreases ps.len() - k,
{
    if k < ps.len() {
        assert(ps.take(k + 1).drop_last() =~= ps.take(k));
        joined_prefix(ps, k + 1);
    } else {
        assert(ps.take(k) =~= ps);
    }
}

/// A piece is no longer than the whole.
proof fn piece_fits(ps: Seq<Seq<u8>>, i: int)
    requires
        0 <= i < ps.len(),
    ensures
        ps[i].len() <= chunking::joined(ps).len(),
{
    joined_prefix(ps, i + 1);
    assert(ps.take(i + 1).last() == ps[i]);
}

/// What is wrong with a prefix of the records is wrong with all of them.
proof fn record_error_extends(m: StoreModel, rs: Seq<RecordModel>, k: int)
    requires
        0 <= k < rs.len(),
        forall|j: int| 0 <= j < k ==> recording::record_fault(#[trigger] rs[j]) is None,
        recording::record_fault(rs[k]) is Some,
    ensures
        all_recorded(m, rs) == Err::<(StoreModel, Seq<i64>), Fault>(
            recording::record_fault(rs[k])->Some_0,
        ),
    decreases rs.len(),
{
    if k == rs.len() - 1 {
        all_fit(m, rs.drop_last());
    } else {
        assert(rs.drop_last()[k] == rs[k]);
        record_error_extends(m, rs.drop_last(), k);
    }
}

/// Records of which none is faulty are all recorded.
proof fn all_fit(m: StoreModel, rs: Seq<RecordModel>)
    requires
        forall|j: int| 0 <= j < rs.len() ==> recording::record_fault(#[trigger] rs[j]) is None,
    ensures
        all_recorded(m, rs) is Ok,
    decreases rs.len(),
{
    if rs.len() > 0 {
        assert(recording::record_fault(rs[rs.len() - 1]) is None);
        all_fit(m, rs.drop_last());
    }
}

impl HistoryStore {
    /// The tables are in order.
    pub open spec fn wf(self) -> bool {
        store_ok(self@)
    }

    /// Empty tables.
    pub fn new() -> (s: Self)
        ensures
            s.wf(),
            s@ == (StoreModel {
                chunks: seq![],
                versions: seq![],
                conflicts: seq![],
                last_version: 0,
                last_conflict: 0,
            }),
    {
        let s = HistoryStore {
            chunks: Vec::new(),
            versions: Vec::new(),
            conflicts: Vec::new(),
            last_version: 0,
            last_conflict: 0,
        };
        assert(s@.chunks =~= seq![]);
        assert(s@.versions =~= seq![]);
        assert(s@.conflicts =~= seq![]);
        s
    }

    /// The tables with the given rows, listed by ascending identifier, and the
    /// last identifiers given out; `None` where versions or conflicts are not so
    /// listed, or a conflict references a version that is not there.
    pub fn from_rows(
        chunks: Vec<ChunkRow>,
        versions: Vec<VersionRow>,
        conflicts: Vec<ConflictRow>,
        last_version: i64,
        last_conflict: i64,
    ) -> (r: Option<Self>)
        ensures
            ({
                let m = StoreModel {
                    chunks: reading::chunk_models(chunks@),
                    versions: queries::version_models(versions@),
                    conflicts: queries::conflict_models(conflicts@),
                    last_version,
                    last_conflict,
                };
                match r {
                    Some(s) => s@ == m && store_ok(m),
                    None => !store_ok(m),
                }
            }),
    {
        let s = HistoryStore { chunks, versions, conflicts, last_version, last_conflict };
        if s.versions_listed() && s.conflicts_listed() {
            Some(s)
        } else {
            None
        }
    }

    fn versions_listed(&self) -> (b: bool)
        ensures
            b == versions_ok(self@.versions, self@.last_version),
    {
        let ghost vs = self@.versions;
        let mut i: usize = 0;
        while i < self.versions.len()
            invariant
                i <= self.versions@.len(),
                vs == self@.versions,
                vs.len() == self.versions@.len(),
                versions_ok(vs.take(i as int), self.last_version),
            decreases self.versions@.len() - i,
        {
            assert(vs[i as int] == self.versions@[i as int]@);
            if self.versions[i].id > self.last_version {
                return false;
            }
            if 0 < i {
                assert(vs[i - 1] == self.versions@[i - 1]@);
                assert(vs.take(i as int)[i - 1] == vs[i - 1]);
                if self.versions[i - 1].id >= self.versions[i].id {
                    return false;
                }
            }
            proof {
                let t = vs.take(i + 1);
                assert forall|a: int, b: int| 0 <= a < b < t.len() implies (#[trigger] t[a]).id < (
                #[trigger] t[b]).id by {
                    let p = vs.take(i as int);
                    assert(t[a] == p[a]);
                    if b < i {
                        assert(t[b] == p[b]);
                    } else if a < i - 1 {
                        assert(p[a].id < p[i - 1].id);
                    }
                }
                assert forall|a: int| 0 <= a < t.len() implies (#[trigger] t[a]).id
                    <= self.last_version by {
                    if a < i {
                        assert(t[a] == vs.take(i as int)[a]);
                    }
                }
            }
            i = i + 1;
        }
        assert(vs.take(i as int) =~= vs);
        true
    }

    fn conflicts_listed(&self) -> (b: bool)
        ensures
            b == conflicts_ok(self@.conflicts, self@.last_conflict, self@.versions),
    {
        let ghost cs = self@.conflicts;
        let ghost vs = self@.versions;
        let mut i: usize = 0;
        while i < self.conflicts.len()
            invariant
                i <= self.conflicts@.len(),
                cs == self@.conflicts,
                vs == self@.versions,
                cs.len() == self.conflicts@.len(),
                conflicts_ok(cs.take(i as int), self.last_conflict, vs),
            decreases self.conflicts@.len() - i,
        {
            assert(cs[i as int] == self.conflicts@[i as int]@);
            if self.conflicts[i].id > self.last_conflict {
                return false;
            }
            if 0 < i {
                assert(cs[i - 1] == self.conflicts@[i - 1]@);
                assert(cs.take(i as int)[i - 1] == cs[i - 1]);
                if self.conflicts[i - 1].id >= self.conflicts[i].id {
                    return false;
                }
            }
            if !self.knows(VersionId(self.conflicts[i].winner)) {
                return false;
            }
            if !self.knows(VersionId(self.conflicts[i].loser)) {
                return false;
            }
            proof {
                let t = cs.take(i + 1);
                assert forall|a: int, b: int| 0 <= a < b < t.len() implies (#[trigger] t[a]).id < (
                #[trigger] t[b]).id by {
                    let p = cs.take(i as int);
                    assert(t[a] == p[a]);
                    if b < i {
                        assert(t[b] == p[b]);
                    } else if a < i - 1 {
                        assert(p[a].id < p[i - 1].id);
                    }
                }
                assert forall|a: int| 0 <= a < t.len() implies (#[trigger] t[a]).id
                    <= self.last_conflict && has_version(vs, t[a].winner) && has_version(
                    vs,
                    t[a].loser,
                ) by {
                    if a < i {
                        assert(t[a] == cs.take(i as int)[a]);
                    }
                }
            }
            i = i + 1;
        }
        assert(cs.take(i as int) =~= cs);
        true
    }

    /// Collapse rows that record one version: the lowest identifier stays, and
    /// conflicts that reference another are pointed to it.
    pub fn dedup_versions(&mut self)
        requires
            old(self).wf(),
        ensures
            final(self).wf(),
            final(self)@ == deduplicated(old(self)@),
    {
        let ghost m = self@;
        let mut versions: Vec<VersionRow> = Vec::new();
        std::mem::swap(&mut versions, &mut self.versions);
        proof {
            assert forall|i: int, j: int| 0 <= i < j < versions@.len() implies (
            #[trigger] versions@[i]).id < (#[trigger] versions@[j]).id by {
                assert(m.versions[i].id < m.versions[j].id);
            }
            assert forall|i: int| 0 <= i < self.conflicts@.len() implies has_version(
                m.versions,
                (#[trigger] self.conflicts@[i]).winner,
            ) && has_version(m.versions, self.conflicts@[i].loser) by {
                assert(m.conflicts[i] == self.conflicts@[i]@);
            }
        }
        self.conflicts = migration::repoint(&self.conflicts, &versions);
        self.versions = migration::keep_first_rows(versions);
        proof {
            deduplicated_ok(m);
        }
    }

    /// Cut, hash, pack and store `bytes`.
    ///
    /// Returns the hash of the whole content and the number of plain bytes in the
    /// chunks that were not there yet.
    pub fn store_content(&mut self, bytes: &[u8]) -> (r: Result<(ContentHash, u64), HistoryError>)
        requires
            old(self).wf(),
        ensures
            final(self).wf(),
            match r {
                Ok((hash, n)) => {
                    &&& recording::pack_error(chunking::pieces(bytes@)) is None
                    &&& recording::storable(bytes@)
                    &&& hash == digest::digest(bytes@)
                    &&& n == fresh_bytes(old(self)@.chunks, chunking::pieces(bytes@))
                    &&& final(self)@ == (StoreModel {
                        chunks: with_chunks(
                            old(self)@.chunks,
                            recording::chunk_rows(chunking::pieces(bytes@)),
                        ),
                        ..old(self)@
                    })
                },
                Err(e) => {
                    &&& recording::pack_fault(chunking::pieces(bytes@)) == Some(e@)
                    &&& final(self)@ == old(self)@
                },
            },
    {
        let packed = match recording::pack_content(bytes) {
            Ok(p) => p,
            Err(e) => {
                return Err(e);
            },
        };
        let ghost ps = chunking::pieces(bytes@);
        proof {
            chunking::pieces_rejoin(bytes@);
        }
        let total: usize = bytes.len();
        let n: u64 = add_chunks(&mut self.chunks, packed.chunks, Ghost(ps));
        Ok((packed.hash, n))
    }

    /// Add a version's rows where they are not there yet; the version's
    /// identifier.
    fn insert_version(&mut self, plan: Plan, Ghost(r): Ghost<RecordModel>) -> (id: i64)
        requires
            old(self).wf(),
            old(self)@.last_version < i64::MAX,
            recording::plans(plan, r),
        ensures
            final(self).wf(),
            recorded(old(self)@, r) == Ok::<(StoreModel, i64), Fault>((final(self)@, id)),
            final(self)@.last_version <= old(self)@.last_version + 1,
    {
        let ghost m = self@;
        let ghost ps = recording::record_pieces(r);
        proof {
            if r.state is Present {
                chunking::pieces_rejoin(r.bytes->Some_0);
            } else {
                assert(ps =~= Seq::<Seq<u8>>::empty());
            }
            inserted_ok(m, recording::chunk_rows(ps), recording::row_of(r));
        }
        let Plan { chunks, row } = plan;
        let mut row = row;
        add_chunks(&mut self.chunks, chunks, Ghost(ps));
        let n: usize = self.versions.len();
        assert(m.versions.take(n as int) =~= m.versions);
        match queries::position_of_identity(&self.versions, n, &row) {
            Some(i) => {
                assert(m.versions[i as int] == self.versions@[i as int]@);
                self.versions[i].id
            },
            None => {
                let ghost before = self.versions@;
                let id: i64 = self.last_version + 1;
                row.id = id;
                self.last_version = id;
                self.versions.push(row);
                assert(queries::version_models(self.versions@) =~= m.versions.push(row@));
                id
            },
        }
    }

    /// Record a version.
    ///
    /// A present version needs its content, which must be what its signature
    /// declares; the content is stored first. A version whose path, state and
    /// clock are already recorded adds no row and keeps its identifier. Nothing
    /// changes on an error.
    pub fn record_version(
        &mut self,
        path: &RelPath,
        state: &EntryState,
        clock: &VectorClock,
        replica: ReplicaId,
        origin: Origin,
        wall_ms: u64,
        bytes: Option<&[u8]>,
    ) -> (r: Result<VersionId, HistoryError>)
        requires
            old(self).wf(),
            old(self)@.last_version < i64::MAX,
        ensures
            final(self).wf(),
            ({
                let record = RecordModel {
                    path: path@,
                    state: *state,
                    clock: clock@,
                    replica,
                    origin,
                    wall_ms,
                    bytes: match bytes {
                        Some(b) => Some(b@),
                        None => None,
                    },
                };
                match r {
                    Ok(id) => recorded(old(self)@, record) == Ok::<(StoreModel, i64), Fault>(
                        (final(self)@, id.0),
                    ) && (*state is Present ==> recording::storable(bytes->Some_0@)),
                    Err(e) => recorded(old(self)@, record) == Err::<(StoreModel, i64), Fault>(e@)
                        && final(self)@ == old(self)@,
                }
            }),
    {
        let record = VersionRecord { path, state, clock, replica, origin, wall_ms, bytes };
        match recording::plan_version(&record) {
            Ok(plan) => {
                let id: i64 = self.insert_version(plan, Ghost(record@));
                Ok(VersionId(id))
            },
            Err(e) => Err(e),
        }
    }

    /// Record a batch of versions, exactly as if one after the other, or none of
    /// them on an error. The identifiers are in the order of the records.
    pub fn record_versions(&mut self, records: &[VersionRecord<'_>]) -> (r: Result<
        Vec<VersionId>,
        HistoryError,
    >)
        requires
            old(self).wf(),
            old(self)@.last_version + records@.len() <= i64::MAX,
        ensures
            final(self).wf(),
            match r {
                Ok(ids) => all_recorded(old(self)@, record_models(records@)) == Ok::<
                    (StoreModel, Seq<i64>),
                    Fault,
                >((final(self)@, id_numbers(ids@))),
                Err(e) => {
                    &&& all_recorded(old(self)@, record_models(records@)) == Err::<
                        (StoreModel, Seq<i64>),
                        Fault,
                    >(e@)
                    &&& final(self)@ == old(self)@
                },
            },
    {
        let ghost m = self@;
        let ghost rs = record_models(records@);
        let mut plans: Vec<Plan> = Vec::new();
        let mut i: usize = 0;
        while i < records.len()
            invariant
                i <= records@.len(),
                plans@.len() == i,
                rs == record_models(records@),
                m == old(self)@,
                self.wf(),
                self@ == m,
                forall|j: int| 0 <= j < i ==> recording::plans(#[trigger] plans@[j], rs[j]),
            decreases records@.len() - i,
        {
            assert(rs[i as int] == records@[i as int]@);
            match recording::plan_version(&records[i]) {
                Ok(plan) => {
                    plans.push(plan);
                },
                Err(e) => {
                    proof {
                        assert forall|j: int| 0 <= j < i implies recording::record_fault(
                            #[trigger] rs[j],
                        ) is None by {
                            assert(recording::plans(plans@[j], rs[j]));
                        }
                        record_error_extends(m, rs, i as int);
                    }
                    return Err(e);
                },
            }
            i = i + 1;
        }
        let mut ids: Vec<VersionId> = Vec::new();
        let mut k: usize = 0;
        assert(rs.take(0) =~= Seq::<RecordModel>::empty());
        assert(id_numbers(ids@) =~= Seq::<i64>::empty());
        while k < records.len()
            invariant
                k <= records@.len(),
                plans@.len() == records@.len(),
                rs == record_models(records@),
                m == old(self)@,
                m.last_version + records@.len() <= i64::MAX,
                self.wf(),
                self@.last_version <= m.last_version + k,
                ids@.len() == k,
                forall|j: int|
                    k <= j < plans@.len() ==> recording::plans(#[trigger] plans@[j], rs[j]),
                all_recorded(m, rs.take(k as int)) == Ok::<(StoreModel, Seq<i64>), Fault>(
                    (self@, id_numbers(ids@)),
                ),
            decreases records@.len() - k,
        {
            let ghost before = ids@;
            let mut plan = Plan {
                chunks: Vec::new(),
                row: VersionRow {
                    id: 0,
                    path: String::new(),
                    state: 0,
                    content_hash: None,
                    size: None,
                    manifest: None,
                    clock: Vec::new(),
                    replica: 0,
                    wall_ms: 0,
                    origin: 0,
                    exec_bit: 0,
                },
            };
            std::mem::swap(&mut plan, &mut plans[k]);
            proof {
                assert(recording::plans(plan, rs[k as int]));
                assert(rs.take(k + 1).drop_last() =~= rs.take(k as int));
                assert(rs.take(k + 1).last() == rs[k as int]);
            }
            let id: i64 = self.insert_version(plan, Ghost(rs[k as int]));
            ids.push(VersionId(id));
            assert(id_numbers(ids@) =~= id_numbers(before).push(id));
            k = k + 1;
        }
        assert(rs.take(k as int) =~= rs);
        Ok(ids)
    }

    /// The path, clock and state of every recorded version.
    pub fn version_identities(&self) -> (l: Vec<(String, Vec<u8>, i64)>)
        ensures
            l@.len() == self@.versions.len(),
            forall|i: int|
                0 <= i < l@.len() ==> (#[trigger] l@[i]).0@ == self@.versions[i].path && l@[i].1@
                    == self@.versions[i].clock && l@[i].2 == self@.versions[i].state,
    {
        let mut l: Vec<(String, Vec<u8>, i64)> = Vec::new();
        let mut i: usize = 0;
        while i < self.versions.len()
            invariant
                i <= self.versions@.len(),
                l@.len() == i,
                forall|j: int|
                    0 <= j < l@.len() ==> (#[trigger] l@[j]).0@ == self.versions@[j].path@
                        && l@[j].1@ == self.versions@[j].clock@ && l@[j].2
                        == self.versions@[j].state,
            decreases self.versions@.len() - i,
        {
            let row = &self.versions[i];
            let clock = bytes::copy_bytes(row.clock.as_slice(), 0, row.clock.len());
            assert(clock@ =~= row.clock@);
            l.push((row.path.as_str().to_owned(), clock, row.state));
            i = i + 1;
        }
        l
    }

    /// Record a conflict between two recorded versions.
    ///
    /// The error is what the database says of a reference to a row that does not
    /// exist: one of the versions is not recorded.
    pub fn record_conflict(
        &mut self,
        path: &RelPath,
        winner: VersionId,
        loser: VersionId,
        wall_ms: u64,
    ) -> (r: Result<ConflictId, HistoryError>)
        requires
            old(self).wf(),
            old(self)@.last_conflict < i64::MAX,
        ensures
            final(self).wf(),
            match r {
                Ok(id) => {
                    &&& has_version(old(self)@.versions, winner.0)
                    &&& has_version(old(self)@.versions, loser.0)
                    &&& id.0 == old(self)@.last_conflict + 1
                    &&& final(self)@ == (StoreModel {
                        conflicts: old(self)@.conflicts.push(
                            ConflictModel {
                                id: id.0,
                                path: path@,
                                winner: winner.0,
                                loser: loser.0,
                                wall_ms: history::to_sql(wall_ms),
                                resolved: 0,
                            },
                        ),
                        last_conflict: id.0,
                        ..old(self)@
                    })
                },
                Err(e) => {
                    &&& final(self)@ == old(self)@
                    &&& e@ == Fault::Sqlite("FOREIGN KEY constraint failed"@)
                    &&& !(has_version(old(self)@.versions, winner.0) && has_version(
                        old(self)@.versions,
                        loser.0,
                    ))
                },
            },
    {
        let ghost m = self@;
        if !self.knows(winner) || !self.knows(loser) {
            return Err(HistoryError::Sqlite("FOREIGN KEY constraint failed".to_owned()));
        }
        let id: i64 = self.last_conflict + 1;
        let row = ConflictRow {
            id,
            path: path.as_str().to_owned(),
            winner: winner.0,
            loser: loser.0,
            wall_ms: history::to_sql_int(wall_ms),
            resolved: 0,
        };
        self.last_conflict = id;
        let ghost before = self.conflicts@;
        self.conflicts.push(row);
        assert(self@.conflicts =~= m.conflicts.push(row@));
        Ok(ConflictId(id))
    }

    /// Whether the version is recorded.
    fn knows(&self, version: VersionId) -> (b: bool)
        ensures
            b == has_version(self@.versions, version.0),
    {
        proof {
            queries::find_version_spec(self@.versions, version.0, 0);
        }
        match queries::position_of_version(&self.versions, version.0) {
            Some(i) => {
                assert(self@.versions[i as int].id == version.0);
                true
            },
            None => false,
        }
    }

    /// Turn the flag of a conflict from `from` to `to`; whether it was turned.
    fn turn(&mut self, id: ConflictId, from: i64, to: i64) -> (turned: bool)
        requires
            old(self).wf(),
        ensures
            final(self).wf(),
            (final(self)@, turned) == flag_turned(old(self)@, id.0, from, to),
    {
        let ghost m = self@;
        proof {
            queries::find_conflict_spec(m.conflicts, id.0, 0);
        }
        match queries::position_of_conflict(&self.conflicts, id.0) {
            Some(i) => {
                assert(m.conflicts[i as int] == self.conflicts@[i as int]@);
                if self.conflicts[i].resolved == from {
                    let row = &self.conflicts[i];
                    let turned = ConflictRow {
                        id: row.id,
                        path: row.path.as_str().to_owned(),
                        winner: row.winner,
                        loser: row.loser,
                        wall_ms: row.wall_ms,
                        resolved: to,
                    };
                    let ghost model = turned@;
                    self.conflicts.set(i, turned);
                    proof {
                        assert(self@.conflicts =~= m.conflicts.update(i as int, model));
                        assert(store_ok(self@)) by {
                            let cs = self@.conflicts;
                            assert forall|a: int, b: int| 0 <= a < b < cs.len() implies (
                            #[trigger] cs[a]).id < (#[trigger] cs[b]).id by {
                                assert(m.conflicts[a].id < m.conflicts[b].id);
                            }
                            assert forall|a: int| 0 <= a < cs.len() implies (#[trigger] cs[a]).id
                                <= m.last_conflict && has_version(m.versions, cs[a].winner)
                                && has_version(m.versions, cs[a].loser) by {
                                assert(m.conflicts[a].id <= m.last_conflict);
                            }
                        }
                    }
                    true
                } else {
                    false
                }
            },
            None => false,
        }
    }

    /// Mark a conflict resolved. `false` means that there is no such conflict or
    /// that it was resolved already.
    pub fn mark_conflict_resolved(&mut self, id: ConflictId) -> (turned: bool)
        requires
            old(self).wf(),
        ensures
            final(self).wf(),
            (final(self)@, turned) == flag_turned(old(self)@, id.0, 0, 1),
    {
        self.turn(id, 0, 1)
    }

    /// Mark a conflict unresolved again. `false` means that there is no such
    /// conflict or that it was unresolved already.
    pub fn mark_conflict_unresolved(&mut self, id: ConflictId) -> (turned: bool)
        requires
            old(self).wf(),
        ensures
            final(self).wf(),
            (final(self)@, turned) == flag_turned(old(self)@, id.0, 1, 0),
    {
        self.turn(id, 1, 0)
    }

    /// All recorded versions of `path`, newest first.
    pub fn log(&self, path: &RelPath) -> (r: Result<Vec<VersionMeta>, HistoryError>)
        ensures
            match r {
                Ok(l) => queries::log_of(self@.versions, path@) == Ok::<Seq<MetaModel>, Fault>(
                    queries::metas(l@),
                ),
                Err(e) => queries::log_of(self@.versions, path@) == Err::<Seq<MetaModel>, Fault>(
                    e@,
                ),
            },
    {
        queries::log(&self.versions, path.as_str())
    }

    /// The newest versions across all paths, newest first, at most `limit`.
    pub fn recent(&self, limit: usize) -> (r: Result<Vec<(RelPath, VersionMeta)>, HistoryError>)
        ensures
            match r {
                Ok(l) => queries::recent_of(self@.versions, limit as nat) == Ok::<
                    Seq<(Seq<char>, MetaModel)>,
                    Fault,
                >(queries::path_metas(l@)),
                Err(e) => queries::recent_of(self@.versions, limit as nat) == Err::<
                    Seq<(Seq<char>, MetaModel)>,
                    Fault,
                >(e@),
            },
    {
        queries::recent(&self.versions, limit)
    }

    /// The most recently versioned paths, newest version first, at most `limit`.
    pub fn history_paths(&self, limit: usize) -> (r: Result<Vec<PathHistory>, HistoryError>)
        ensures
            match r {
                Ok(l) => queries::paths_of(
                    self@.versions,
                    self@.versions.len() as int,
                    limit as nat,
                ) == Ok::<Seq<PathModel>, Fault>(queries::path_models(l@)),
                Err(e) => queries::paths_of(
                    self@.versions,
                    self@.versions.len() as int,
                    limit as nat,
                ) == Err::<Seq<PathModel>, Fault>(e@),
            },
    {
        queries::history_paths(&self.versions, limit)
    }

    /// The newest recorded version of `path`, if there is one.
    pub fn latest_version_id(&self, path: &RelPath) -> (r: Option<VersionId>)
        ensures
            r == queries::latest_of(self@.versions, path@),
    {
        queries::latest_version_id(&self.versions, path.as_str())
    }

    /// Reassemble, unpack and verify the content of a present version.
    ///
    /// Every chunk is verified against its key and its size, and the whole against
    /// the version's recorded hash.
    pub fn get_content(&self, version: VersionId) -> (r: Result<Vec<u8>, HistoryError>)
        ensures
            reading::bytes_result(r) == content(self@, version.0),
    {
        match queries::position_of_version(&self.versions, version.0) {
            None => Err(HistoryError::NoSuchVersion(version.0)),
            Some(i) => {
                assert(self@.versions[i as int] == self.versions@[i as int]@);
                self.versions[i].content(&self.chunks)
            },
        }
    }

    /// The content of the newest present version whose hash is `hash`, if there
    /// is one.
    pub fn content_by_hash(&self, hash: &ContentHash) -> (r: Result<Option<Vec<u8>>, HistoryError>)
        ensures
            match queries::by_hash(self@.versions, hash.0@) {
                None => r is Ok && r->Ok_0 is None,
                Some(i) => match content(self@, self@.versions[i].id) {
                    Ok(b) => r is Ok && r->Ok_0 is Some && r->Ok_0->Some_0@ == b,
                    Err(e) => r is Err && r->Err_0@ == e,
                },
            },
    {
        match queries::position_by_hash(&self.versions, hash.0.as_slice()) {
            None => Ok(None),
            Some(i) => {
                assert(self@.versions[i as int] == self.versions@[i as int]@);
                match self.get_content(VersionId(self.versions[i].id)) {
                    Ok(b) => Ok(Some(b)),
                    Err(e) => Err(e),
                }
            },
        }
    }

    /// The recorded conflicts, oldest first; with `unresolved_only`, only those
    /// whose flag is unset.
    pub fn conflicts(&self, unresolved_only: bool) -> (r: Result<
        Vec<ConflictRecord>,
        HistoryError,
    >)
        ensures
            match r {
                Ok(l) => queries::conflicts_of(self@.conflicts, unresolved_only) == Ok::<
                    Seq<ConflictView>,
                    Fault,
                >(queries::conflict_views(l@)),
                Err(e) => queries::conflicts_of(self@.conflicts, unresolved_only) == Err::<
                    Seq<ConflictView>,
                    Fault,
                >(e@),
            },
    {
        queries::conflicts(&self.conflicts, unresolved_only)
    }

    /// Verify the integrity of the tables. `quick` is what the database says of
    /// its own file.
    pub fn check(&self, quick: &str) -> (r: CheckReport)
        ensures
            r@ == integrity::report_of(quick@, self@.versions, self@.chunks),
    {
        integrity::check(quick, &self.versions, &self.chunks)
    }

    /// The chunk rows.
    pub fn chunk_rows(&self) -> (rows: &Vec<ChunkRow>)
        ensures
            reading::chunk_models(rows@) == self@.chunks,
    {
        &self.chunks
    }

    /// The version rows, by ascending identifier.
    pub fn version_rows(&self) -> (rows: &Vec<VersionRow>)
        ensures
            queries::version_models(rows@) == self@.versions,
    {
        &self.versions
    }

    /// The greatest identifiers ever given to a version and to a conflict; 0 where
    /// there was none.
    pub fn last_ids(&self) -> (r: (i64, i64))
        ensures
            r == (self@.last_version, self@.last_conflict),
    {
        (self.last_version, self.last_conflict)
    }

    /// The conflict rows, by ascending identifier.
    pub fn conflict_rows(&self) -> (rows: &Vec<ConflictRow>)
        ensures
            queries::conflict_models(rows@) == self@.conflicts,
    {
        &self.conflicts
    }
}

/// The tables without rows that record a version a second time.
pub open spec fn deduplicated(m: StoreModel) -> StoreModel {
    StoreModel {
        versions: migration::first_rows(m.versions),
        conflicts: migration::repointed(m.conflicts, m.versions),
        ..m
    }
}

/// Law: collapsing keeps the tables in order, leaves no version recorded twice,
/// and leaves tables that hold no version twice as they are.
pub proof fn deduplicated_ok(m: StoreModel)
    requires
        store_ok(m),
    ensures
        store_ok(deduplicated(m)),
        migration::distinct_versions(deduplicated(m).versions),
        migration::distinct_versions(m.versions) ==> deduplicated(m) == m,
{
    let t = deduplicated(m);
    migration::first_rows_spec(m.versions);
    assert forall|i: int| 0 <= i < t.versions.len() implies (#[trigger] t.versions[i]).id
        <= m.last_version by {
        let j = choose|j: int|
            0 <= j < m.versions.len() && #[trigger] migration::first_rows(m.versions)[i]
                == #[trigger] m.versions[j];
        assert(m.versions[j].id <= m.last_version);
    }
    assert forall|i: int| 0 <= i < t.conflicts.len() implies (#[trigger] t.conflicts[i]).id
        <= m.last_conflict && has_version(t.versions, t.conflicts[i].winner) && has_version(
        t.versions,
        t.conflicts[i].loser,
    ) by {
        assert(m.conflicts[i].id <= m.last_conflict);
        migration::first_id_stays(m.versions, m.conflicts[i].winner);
        migration::first_id_stays(m.versions, m.conflicts[i].loser);
    }
    assert forall|i: int, j: int| 0 <= i < j < t.conflicts.len() implies (
    #[trigger] t.conflicts[i]).id < (#[trigger] t.conflicts[j]).id by {
        assert(m.conflicts[i].id < m.conflicts[j].id);
    }
    if migration::distinct_versions(m.versions) {
        first_rows_of_distinct(m.versions);
        assert forall|i: int| 0 <= i < m.conflicts.len() implies #[trigger] t.conflicts[i]
            == m.conflicts[i] by {
            first_id_of_distinct(m.versions, m.conflicts[i].winner);
            first_id_of_distinct(m.versions, m.conflicts[i].loser);
        }
        assert(t.conflicts =~= m.conflicts);
    }
}

proof fn first_rows_of_distinct(vs: Seq<VersionModel>)
    requires
        migration::distinct_versions(vs),
    ensures
        migration::first_rows(vs) == vs,
    decreases vs.len(),
{
    if vs.len() > 0 {
        let p = vs.drop_last();
        first_rows_of_distinct(p);
        queries::find_identity_spec(p, vs.last(), 0);
        let k = queries::find_identity(p, vs.last(), 0);
        if k < p.len() {
            assert(queries::same_identity(vs[k], vs[vs.len() - 1]));
        }
        assert(migration::first_rows(vs) =~= vs);
    } else {
        assert(migration::first_rows(vs) =~= vs);
    }
}

proof fn first_id_of_distinct(vs: Seq<VersionModel>, id: i64)
    requires
        migration::distinct_versions(vs),
        has_version(vs, id),
    ensures
        migration::first_id(vs, id) == id,
{
    queries::find_version_spec(vs, id, 0);
    let k = queries::find_version(vs, id, 0);
    queries::find_identity_spec(vs, vs[k], 0);
    let j = queries::find_identity(vs, vs[k], 0);
    if j < k {
        assert(queries::same_identity(vs[j], vs[k]));
    }
}

/// The content of the version with the given identifier.
pub open spec fn content(m: StoreModel, id: i64) -> Result<Seq<u8>, Fault> {
    let at = queries::find_version(m.versions, id, 0);
    if at < m.versions.len() {
        reading::content_of(m.versions[at], m.chunks)
    } else {
        Err(Fault::NoSuchVersion(id))
    }
}

/// The tables after the flag of a conflict was turned from `from` to `to`, and
/// whether it was turned.
pub open spec fn flag_turned(m: StoreModel, id: i64, from: i64, to: i64) -> (StoreModel, bool) {
    let at = queries::find_conflict(m.conflicts, id, 0);
    if at < m.conflicts.len() && m.conflicts[at].resolved == from {
        (
            StoreModel {
                conflicts: m.conflicts.update(
                    at,
                    ConflictModel { resolved: to, ..m.conflicts[at] },
                ),
                ..m
            },
            true,
        )
    } else {
        (m, false)
    }
}

} // verus!
