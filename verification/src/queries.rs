//! Questions to the version and conflict tables.
//!
//! Both tables list their rows by ascending identifier, so the newest row is the
//! last one. Wall-clock times take part in no decision.

use crate::bytes;
use crate::history;
use crate::history::{
    ConflictId, ConflictModel, ConflictRow, Fault, HistoryError, VersionId, VersionModel,
    VersionRow,
};
use crate::path::RelPath;
use crate::reading;
use crate::reading::{MetaModel, VersionMeta};
use crate::text;
use vstd::prelude::*;

verus! {

/// The rows of a table by their views.
pub open spec fn version_models(rows: Seq<VersionRow>) -> Seq<VersionModel> {
    Seq::new(rows.len(), |i: int| rows[i]@)
}

/// The rows of a table by their views.
pub open spec fn conflict_models(rows: Seq<ConflictRow>) -> Seq<ConflictModel> {
    Seq::new(rows.len(), |i: int| rows[i]@)
}

// ---- finding one version ---------------------------------------------------
/// The position of the first version at or after `i` with the given identifier,
/// or the number of versions.
pub open spec fn find_version(vs: Seq<VersionModel>, id: i64, i: int) -> int
    decreases vs.len() - i,
{
    if i >= vs.len() {
        vs.len() as int
    } else if vs[i].id == id {
        i
    } else {
        find_version(vs, id, i + 1)
    }
}

/// What `find_version` finds.
pub proof fn find_version_spec(vs: Seq<VersionModel>, id: i64, i: int)
    requires
        0 <= i <= vs.len(),
    ensures
        i <= find_version(vs, id, i) <= vs.len(),
        find_version(vs, id, i) < vs.len() ==> vs[find_version(vs, id, i)].id == id,
        forall|j: int| i <= j < find_version(vs, id, i) ==> (#[trigger] vs[j]).id != id,
    decreases vs.len() - i,
{
    if i < vs.len() && vs[i].id != id {
        find_version_spec(vs, id, i + 1);
    }
}

/// The position of the version with the given identifier, if it is there.
pub fn position_of_version(rows: &Vec<VersionRow>, id: i64) -> (r: Option<usize>)
    ensures
        match r {
            Some(i) => i < rows@.len() && i == find_version(version_models(rows@), id, 0),
            None => find_version(version_models(rows@), id, 0) == rows@.len(),
        },
{
    let ghost vs = version_models(rows@);
    let mut i: usize = 0;
    while i < rows.len()
        invariant
            i <= rows@.len(),
            vs == version_models(rows@),
            find_version(vs, id, 0) == find_version(vs, id, i as int),
        decreases rows@.len() - i,
    {
        assert(vs[i as int] == rows@[i as int]@);
        if rows[i].id == id {
            return Some(i);
        }
        i = i + 1;
    }
    None
}

/// Two rows are of one version: the same path, state and clock.
pub open spec fn same_identity(a: VersionModel, b: VersionModel) -> bool {
    a.path == b.path && a.state == b.state && a.clock == b.clock
}

/// The position of the first version at or after `i` with the identity of `v`, or
/// the number of versions.
pub open spec fn find_identity(vs: Seq<VersionModel>, v: VersionModel, i: int) -> int
    decreases vs.len() - i,
{
    if i >= vs.len() {
        vs.len() as int
    } else if same_identity(vs[i], v) {
        i
    } else {
        find_identity(vs, v, i + 1)
    }
}

/// What `find_identity` finds.
pub proof fn find_identity_spec(vs: Seq<VersionModel>, v: VersionModel, i: int)
    requires
        0 <= i <= vs.len(),
    ensures
        i <= find_identity(vs, v, i) <= vs.len(),
        find_identity(vs, v, i) < vs.len() ==> same_identity(vs[find_identity(vs, v, i)], v),
        forall|j: int|
            i <= j < find_identity(vs, v, i) ==> !same_identity(#[trigger] vs[j], v),
    decreases vs.len() - i,
{
    if i < vs.len() && !same_identity(vs[i], v) {
        find_identity_spec(vs, v, i + 1);
    }
}

/// The position of the first of the first `n` versions with the identity of
/// `row`, if it is there.
pub fn position_of_identity(rows: &Vec<VersionRow>, n: usize, row: &VersionRow) -> (r: Option<
    usize,
>)
    requires
        n <= rows@.len(),
    ensures
        match r {
            Some(i) => i < n && i == find_identity(
                version_models(rows@).take(n as int),
                row@,
                0,
            ),
            None => find_identity(version_models(rows@).take(n as int), row@, 0) == n,
        },
{
    let ghost vs = version_models(rows@).take(n as int);
    let mut i: usize = 0;
    while i < n
        invariant
            i <= n <= rows@.len(),
            vs == version_models(rows@).take(n as int),
            find_identity(vs, row@, 0) == find_identity(vs, row@, i as int),
        decreases n - i,
    {
        assert(vs[i as int] == rows@[i as int]@);
        if rows[i].state == row.state && text::same_text(rows[i].path.as_str(), row.path.as_str())
            && bytes::same_bytes(rows[i].clock.as_slice(), row.clock.as_slice()) {
            return Some(i);
        }
        i = i + 1;
    }
    None
}

// ---- listing versions ------------------------------------------------------
/// `first` and then what follows, unless something is wrong with that.
pub open spec fn followed<T>(first: Seq<T>, rest: Result<Seq<T>, Fault>) -> Result<Seq<T>, Fault> {
    match rest {
        Ok(r) => Ok(first + r),
        Err(e) => Err(e),
    }
}

/// The versions of a path, newest first; or what is wrong with the newest row
/// that cannot be read.
pub open spec fn log_of(vs: Seq<VersionModel>, path: Seq<char>) -> Result<Seq<MetaModel>, Fault>
    decreases vs.len(),
{
    if vs.len() == 0 {
        Ok(seq![])
    } else if vs.last().path != path {
        log_of(vs.drop_last(), path)
    } else {
        match reading::meta_of(vs.last()) {
            Err(e) => Err(e),
            Ok(m) => followed(seq![m], log_of(vs.drop_last(), path)),
        }
    }
}

/// The metadata by their views.
pub open spec fn metas(l: Seq<VersionMeta>) -> Seq<MetaModel> {
    Seq::new(l.len(), |i: int| l[i]@)
}

/// The versions of a path, newest first.
pub fn log(rows: &Vec<VersionRow>, path: &str) -> (r: Result<Vec<VersionMeta>, HistoryError>)
    ensures
        match r {
            Ok(l) => log_of(version_models(rows@), path@) == Ok::<Seq<MetaModel>, Fault>(metas(l@)),
            Err(e) => log_of(version_models(rows@), path@) == Err::<Seq<MetaModel>, Fault>(e@),
        },
{
    let ghost vs = version_models(rows@);
    let mut out: Vec<VersionMeta> = Vec::new();
    let mut i: usize = rows.len();
    proof {
        assert(vs.take(i as int) =~= vs);
        match log_of(vs, path@) {
            Ok(l) => {
                assert(metas(out@) + l =~= l);
            },
            Err(_) => {},
        }
    }
    while 0 < i
        invariant
            i <= rows@.len(),
            vs == version_models(rows@),
            log_of(vs, path@) == followed(metas(out@), log_of(vs.take(i as int), path@)),
        decreases i,
    {
        i = i - 1;
        let ghost before = out@;
        assert(vs.take(i + 1).drop_last() =~= vs.take(i as int));
        assert(vs.take(i + 1).last() == rows@[i as int]@);
        if text::same_text(rows[i].path.as_str(), path) {
            match rows[i].to_meta() {
                Err(e) => {
                    return Err(e);
                },
                Ok(m) => {
                    out.push(m);
                    proof {
                        assert(metas(out@) =~= metas(before) + seq![m@]);
                        match log_of(vs.take(i as int), path@) {
                            Ok(l) => {
                                assert(metas(before) + (seq![m@] + l) =~= metas(out@) + l);
                            },
                            Err(_) => {},
                        }
                    }
                },
            }
        }
    }
    proof {
        assert(vs.take(0) =~= Seq::<VersionModel>::empty());
        assert(metas(out@) + Seq::<MetaModel>::empty() =~= metas(out@));
    }
    Ok(out)
}

/// The newest `n` versions across all paths, newest first, each with its path; or
/// what is wrong with the newest row that cannot be read.
pub open spec fn recent_of(vs: Seq<VersionModel>, n: nat) -> Result<
    Seq<(Seq<char>, MetaModel)>,
    Fault,
>
    decreases vs.len(),
{
    if vs.len() == 0 || n == 0 {
        Ok(seq![])
    } else {
        match reading::path_of("version"@, vs.last().path) {
            Err(e) => Err(e),
            Ok(p) => match reading::meta_of(vs.last()) {
                Err(e) => Err(e),
                Ok(m) => followed(seq![(p, m)], recent_of(vs.drop_last(), (n - 1) as nat)),
            },
        }
    }
}

/// Paths and metadata by their views.
pub open spec fn path_metas(l: Seq<(RelPath, VersionMeta)>) -> Seq<(Seq<char>, MetaModel)> {
    Seq::new(l.len(), |i: int| (l[i].0@, l[i].1@))
}

/// The newest `limit` versions across all paths, newest first.
pub fn recent(rows: &Vec<VersionRow>, limit: usize) -> (r: Result<
    Vec<(RelPath, VersionMeta)>,
    HistoryError,
>)
    ensures
        match r {
            Ok(l) => recent_of(version_models(rows@), limit as nat) == Ok::<
                Seq<(Seq<char>, MetaModel)>,
                Fault,
            >(path_metas(l@)),
            Err(e) => recent_of(version_models(rows@), limit as nat) == Err::<
                Seq<(Seq<char>, MetaModel)>,
                Fault,
            >(e@),
        },
{
    let ghost vs = version_models(rows@);
    let mut out: Vec<(RelPath, VersionMeta)> = Vec::new();
    let mut i: usize = rows.len();
    let mut left: usize = limit;
    proof {
        assert(vs.take(i as int) =~= vs);
        match recent_of(vs, limit as nat) {
            Ok(l) => {
                assert(path_metas(out@) + l =~= l);
            },
            Err(_) => {},
        }
    }
    while 0 < i && 0 < left
        invariant
            i <= rows@.len(),
            vs == version_models(rows@),
            recent_of(vs, limit as nat) == followed(
                path_metas(out@),
                recent_of(vs.take(i as int), left as nat),
            ),
        decreases i,
    {
        i = i - 1;
        let ghost before = out@;
        assert(vs.take(i + 1).drop_last() =~= vs.take(i as int));
        assert(vs.take(i + 1).last() == rows@[i as int]@);
        let path = match reading::stored_path("version", rows[i].path.as_str()) {
            Ok(p) => p,
            Err(e) => {
                return Err(e);
            },
        };
        let meta = match rows[i].to_meta() {
            Ok(m) => m,
            Err(e) => {
                return Err(e);
            },
        };
        left = left - 1;
        let ghost item = (path@, meta@);
        out.push((path, meta));
        proof {
            assert(path_metas(out@) =~= path_metas(before) + seq![item]);
            match recent_of(vs.take(i as int), left as nat) {
                Ok(l) => {
                    assert(path_metas(before) + (seq![item] + l) =~= path_metas(out@) + l);
                },
                Err(_) => {},
            }
        }
    }
    proof {
        assert(path_metas(out@) + Seq::<(Seq<char>, MetaModel)>::empty() =~= path_metas(out@));
        assert(recent_of(vs.take(i as int), left as nat) == Ok::<Seq<(Seq<char>, MetaModel)>, Fault>(
            seq![],
        ));
    }
    Ok(out)
}

// ---- paths -----------------------------------------------------------------
/// A one-line summary of one path's recorded history.
#[derive(Debug, Clone, PartialEq, Eq)]
pub struct PathHistory {
    /// The repository-relative path.
    pub path: RelPath,
    /// How many versions of this path are recorded.
    pub versions: u64,
    /// The newest recorded version of this path.
    pub last_version: VersionId,
    /// Wall-clock milliseconds of the newest version, for display only.
    pub last_wall_ms: u64,
}

/// A path's summary as a mathematical value.
#[verifier::ext_equal]
pub ghost struct PathModel {
    /// The path.
    pub path: Seq<char>,
    /// How many versions of this path are recorded.
    pub versions: nat,
    /// The newest recorded version of this path.
    pub last_version: VersionId,
    /// Wall-clock milliseconds of the newest version.
    pub last_wall_ms: u64,
}

impl View for PathHistory {
    type V = PathModel;

    open spec fn view(&self) -> PathModel {
        PathModel {
            path: self.path@,
            versions: self.versions as nat,
            last_version: self.last_version,
            last_wall_ms: self.last_wall_ms,
        }
    }
}

/// How many of the versions are of the path.
pub open spec fn count_of(vs: Seq<VersionModel>, path: Seq<char>) -> nat
    decreases vs.len(),
{
    if vs.len() == 0 {
        0
    } else {
        count_of(vs.drop_last(), path) + (if vs.last().path == path {
            1nat
        } else {
            0nat
        })
    }
}

/// Whether the version at `i` is the newest of its path.
pub open spec fn newest_of_path(vs: Seq<VersionModel>, i: int) -> bool {
    forall|j: int| i < j < vs.len() ==> (#[trigger] vs[j]).path != vs[i].path
}

/// The newest `n` paths that have their newest version among the first `k`,
/// newest first; or what is wrong with the newest path that cannot be read.
pub open spec fn paths_of(vs: Seq<VersionModel>, k: int, n: nat) -> Result<Seq<PathModel>, Fault>
    decreases k,
{
    if k <= 0 || n == 0 {
        Ok(seq![])
    } else if !newest_of_path(vs, k - 1) {
        paths_of(vs, k - 1, n)
    } else {
        match reading::path_of("version"@, vs[k - 1].path) {
            Err(e) => Err(e),
            Ok(p) => followed(
                seq![
                    PathModel {
                        path: p,
                        versions: count_of(vs, p),
                        last_version: VersionId(vs[k - 1].id),
                        last_wall_ms: history::from_sql(vs[k - 1].wall_ms),
                    },
                ],
                paths_of(vs, k - 1, (n - 1) as nat),
            ),
        }
    }
}

/// The summaries by their views.
pub open spec fn path_models(l: Seq<PathHistory>) -> Seq<PathModel> {
    Seq::new(l.len(), |i: int| l[i]@)
}

fn count_versions(rows: &Vec<VersionRow>, path: &str) -> (n: u64)
    ensures
        n == count_of(version_models(rows@), path@),
{
    let ghost vs = version_models(rows@);
    let mut n: u64 = 0;
    let mut i: usize = 0;
    assert(vs.take(0) =~= Seq::<VersionModel>::empty());
    while i < rows.len()
        invariant
            i <= rows@.len(),
            n <= i,
            vs == version_models(rows@),
            n == count_of(vs.take(i as int), path@),
        decreases rows@.len() - i,
    {
        assert(vs.take(i + 1).drop_last() =~= vs.take(i as int));
        assert(vs.take(i + 1).last() == rows@[i as int]@);
        if text::same_text(rows[i].path.as_str(), path) {
            n = n + 1;
        }
        i = i + 1;
    }
    assert(vs.take(i as int) =~= vs);
    n
}

fn is_newest(rows: &Vec<VersionRow>, k: usize) -> (b: bool)
    requires
        k < rows@.len(),
    ensures
        b == newest_of_path(version_models(rows@), k as int),
{
    let ghost vs = version_models(rows@);
    let total: usize = rows.len();
    let mut j: usize = k + 1;
    while j < total
        invariant
            k < j <= total,
            total == rows@.len(),
            vs == version_models(rows@),
            forall|x: int| k < x < j ==> (#[trigger] vs[x]).path != vs[k as int].path,
        decreases rows@.len() - j,
    {
        assert(vs[j as int] == rows@[j as int]@);
        assert(vs[k as int] == rows@[k as int]@);
        if text::same_text(rows[j].path.as_str(), rows[k].path.as_str()) {
            return false;
        }
        j = j + 1;
    }
    true
}

/// The most recently versioned paths, newest first, at most `limit`.
pub fn history_paths(rows: &Vec<VersionRow>, limit: usize) -> (r: Result<
    Vec<PathHistory>,
    HistoryError,
>)
    ensures
        match r {
            Ok(l) => paths_of(version_models(rows@), rows@.len() as int, limit as nat) == Ok::<
                Seq<PathModel>,
                Fault,
            >(path_models(l@)),
            Err(e) => paths_of(version_models(rows@), rows@.len() as int, limit as nat) == Err::<
                Seq<PathModel>,
                Fault,
            >(e@),
        },
{
    let ghost vs = version_models(rows@);
    let ghost goal = paths_of(vs, rows@.len() as int, limit as nat);
    let mut out: Vec<PathHistory> = Vec::new();
    let mut i: usize = rows.len();
    let mut left: usize = limit;
    proof {
        match goal {
            Ok(l) => {
                assert(path_models(out@) + l =~= l);
            },
            Err(_) => {},
        }
    }
    while 0 < i && 0 < left
        invariant
            i <= rows@.len(),
            vs == version_models(rows@),
            goal == paths_of(vs, rows@.len() as int, limit as nat),
            goal == followed(path_models(out@), paths_of(vs, i as int, left as nat)),
        decreases i,
    {
        i = i - 1;
        let ghost before = out@;
        assert(vs[i as int] == rows@[i as int]@);
        if is_newest(rows, i) {
            let path = match reading::stored_path("version", rows[i].path.as_str()) {
                Ok(p) => p,
                Err(e) => {
                    return Err(e);
                },
            };
            let versions: u64 = count_versions(rows, path.as_str());
            left = left - 1;
            let item = PathHistory {
                path,
                versions,
                last_version: VersionId(rows[i].id),
                last_wall_ms: history::from_sql_int(rows[i].wall_ms),
            };
            let ghost model = item@;
            out.push(item);
            proof {
                assert(path_models(out@) =~= path_models(before) + seq![model]);
                match paths_of(vs, i as int, left as nat) {
                    Ok(l) => {
                        assert(path_models(before) + (seq![model] + l) =~= path_models(out@) + l);
                    },
                    Err(_) => {},
                }
            }
        }
    }
    proof {
        assert(path_models(out@) + Seq::<PathModel>::empty() =~= path_models(out@));
    }
    Ok(out)
}

/// The newest version of a path.
pub open spec fn latest_of(vs: Seq<VersionModel>, path: Seq<char>) -> Option<VersionId>
    decreases vs.len(),
{
    if vs.len() == 0 {
        None
    } else if vs.last().path == path {
        Some(VersionId(vs.last().id))
    } else {
        latest_of(vs.drop_last(), path)
    }
}

/// The newest version of a path, if there is one.
pub fn latest_version_id(rows: &Vec<VersionRow>, path: &str) -> (r: Option<VersionId>)
    ensures
        r == latest_of(version_models(rows@), path@),
{
    let ghost vs = version_models(rows@);
    let mut i: usize = rows.len();
    assert(vs.take(i as int) =~= vs);
    while 0 < i
        invariant
            i <= rows@.len(),
            vs == version_models(rows@),
            latest_of(vs, path@) == latest_of(vs.take(i as int), path@),
        decreases i,
    {
        i = i - 1;
        assert(vs.take(i + 1).drop_last() =~= vs.take(i as int));
        assert(vs.take(i + 1).last() == rows@[i as int]@);
        if text::same_text(rows[i].path.as_str(), path) {
            return Some(VersionId(rows[i].id));
        }
    }
    assert(vs.take(0) =~= Seq::<VersionModel>::empty());
    None
}

/// The position of the newest present version with the given content hash, if
/// there is one.
pub open spec fn by_hash(vs: Seq<VersionModel>, hash: Seq<u8>) -> Option<int>
    decreases vs.len(),
{
    if vs.len() == 0 {
        None
    } else if vs.last().state == 1 && vs.last().content_hash == Some(hash) {
        Some(vs.len() - 1)
    } else {
        by_hash(vs.drop_last(), hash)
    }
}

/// The position of the newest present version with the given content hash.
pub fn position_by_hash(rows: &Vec<VersionRow>, hash: &[u8]) -> (r: Option<usize>)
    ensures
        match r {
            Some(i) => i < rows@.len() && by_hash(version_models(rows@), hash@) == Some(i as int),
            None => by_hash(version_models(rows@), hash@) is None,
        },
{
    let ghost vs = version_models(rows@);
    let mut i: usize = rows.len();
    assert(vs.take(i as int) =~= vs);
    while 0 < i
        invariant
            i <= rows@.len(),
            vs == version_models(rows@),
            by_hash(vs, hash@) == by_hash(vs.take(i as int), hash@),
        decreases i,
    {
        i = i - 1;
        assert(vs.take(i + 1).drop_last() =~= vs.take(i as int));
        assert(vs.take(i + 1).last() == rows@[i as int]@);
        if rows[i].state == 1 {
            match &rows[i].content_hash {
                Some(h) => {
                    if bytes::same_bytes(h.as_slice(), hash) {
                        return Some(i);
                    }
                },
                None => {},
            }
        }
    }
    assert(vs.take(0) =~= Seq::<VersionModel>::empty());
    None
}

// ---- conflicts -------------------------------------------------------------
/// A recorded conflict.
#[derive(Debug, Clone, PartialEq, Eq)]
pub struct ConflictRecord {
    /// The conflict's identifier.
    pub id: ConflictId,
    /// The path that the conflict occurred on.
    pub path: RelPath,
    /// The version chosen as the winner.
    pub winner: VersionId,
    /// The version preserved as the loser.
    pub loser: VersionId,
    /// Wall-clock milliseconds when the conflict was recorded, for display only.
    pub wall_ms: u64,
    /// Whether the conflict has been marked resolved.
    pub resolved: bool,
}

/// A conflict as a mathematical value.
#[verifier::ext_equal]
pub ghost struct ConflictView {
    /// The conflict's identifier.
    pub id: ConflictId,
    /// The path that the conflict occurred on.
    pub path: Seq<char>,
    /// The version chosen as the winner.
    pub winner: VersionId,
    /// The version preserved as the loser.
    pub loser: VersionId,
    /// Wall-clock milliseconds when the conflict was recorded.
    pub wall_ms: u64,
    /// Whether the conflict has been marked resolved.
    pub resolved: bool,
}

impl View for ConflictRecord {
    type V = ConflictView;

    open spec fn view(&self) -> ConflictView {
        ConflictView {
            id: self.id,
            path: self.path@,
            winner: self.winner,
            loser: self.loser,
            wall_ms: self.wall_ms,
            resolved: self.resolved,
        }
    }
}

/// What a conflict row says.
pub open spec fn conflict_of(c: ConflictModel) -> Result<ConflictView, Fault> {
    match reading::path_of("conflict"@, c.path) {
        Err(e) => Err(e),
        Ok(p) => Ok(
            ConflictView {
                id: ConflictId(c.id),
                path: p,
                winner: VersionId(c.winner),
                loser: VersionId(c.loser),
                wall_ms: history::from_sql(c.wall_ms),
                resolved: c.resolved != 0,
            },
        ),
    }
}

/// The conflicts, oldest first, all or only those whose flag is 0; or what is
/// wrong with the oldest row that cannot be read.
pub open spec fn conflicts_of(cs: Seq<ConflictModel>, unresolved_only: bool) -> Result<
    Seq<ConflictView>,
    Fault,
>
    decreases cs.len(),
{
    if cs.len() == 0 {
        Ok(seq![])
    } else {
        match conflicts_of(cs.drop_last(), unresolved_only) {
            Err(e) => Err(e),
            Ok(done) => if unresolved_only && cs.last().resolved != 0 {
                Ok(done)
            } else {
                match conflict_of(cs.last()) {
                    Err(e) => Err(e),
                    Ok(c) => Ok(done.push(c)),
                }
            },
        }
    }
}

/// The conflicts by their views.
pub open spec fn conflict_views(l: Seq<ConflictRecord>) -> Seq<ConflictView> {
    Seq::new(l.len(), |i: int| l[i]@)
}

proof fn conflicts_error(cs: Seq<ConflictModel>, only: bool, k: int)
    requires
        0 <= k <= cs.len(),
        conflicts_of(cs.take(k), only) is Err,
    ensures
        conflicts_of(cs, only) == conflicts_of(cs.take(k), only),
    decreases cs.len() - k,
{
    if k < cs.len() {
        assert(cs.take(k + 1).drop_last() =~= cs.take(k));
        conflicts_error(cs, only, k + 1);
    } else {
        assert(cs.take(k) =~= cs);
    }
}

/// The conflicts, oldest first, all or only the unresolved ones.
pub fn conflicts(rows: &Vec<ConflictRow>, unresolved_only: bool) -> (r: Result<
    Vec<ConflictRecord>,
    HistoryError,
>)
    ensures
        match r {
            Ok(l) => conflicts_of(conflict_models(rows@), unresolved_only) == Ok::<
                Seq<ConflictView>,
                Fault,
            >(conflict_views(l@)),
            Err(e) => conflicts_of(conflict_models(rows@), unresolved_only) == Err::<
                Seq<ConflictView>,
                Fault,
            >(e@),
        },
{
    let ghost cs = conflict_models(rows@);
    let mut out: Vec<ConflictRecord> = Vec::new();
    let mut i: usize = 0;
    assert(cs.take(0) =~= Seq::<ConflictModel>::empty());
    assert(conflict_views(out@) =~= Seq::<ConflictView>::empty());
    while i < rows.len()
        invariant
            i <= rows@.len(),
            cs == conflict_models(rows@),
            conflicts_of(cs.take(i as int), unresolved_only) == Ok::<Seq<ConflictView>, Fault>(
                conflict_views(out@),
            ),
        decreases rows@.len() - i,
    {
        let ghost before = out@;
        assert(cs.take(i + 1).drop_last() =~= cs.take(i as int));
        assert(cs.take(i + 1).last() == rows@[i as int]@);
        let row = &rows[i];
        if !unresolved_only || row.resolved == 0 {
            let path = match reading::stored_path("conflict", row.path.as_str()) {
                Ok(p) => p,
                Err(e) => {
                    proof {
                        conflicts_error(cs, unresolved_only, i + 1);
                    }
                    return Err(e);
                },
            };
            out.push(
                ConflictRecord {
                    id: ConflictId(row.id),
                    path,
                    winner: VersionId(row.winner),
                    loser: VersionId(row.loser),
                    wall_ms: history::from_sql_int(row.wall_ms),
                    resolved: row.resolved != 0,
                },
            );
            assert(conflict_views(out@) =~= conflict_views(before).push(out@.last()@));
        }
        i = i + 1;
    }
    assert(cs.take(i as int) =~= cs);
    Ok(out)
}

/// The position of the first conflict at or after `i` with the given identifier,
/// or the number of conflicts.
pub open spec fn find_conflict(cs: Seq<ConflictModel>, id: i64, i: int) -> int
    decreases cs.len() - i,
{
    if i >= cs.len() {
        cs.len() as int
    } else if cs[i].id == id {
        i
    } else {
        find_conflict(cs, id, i + 1)
    }
}

/// What `find_conflict` finds.
pub proof fn find_conflict_spec(cs: Seq<ConflictModel>, id: i64, i: int)
    requires
        0 <= i <= cs.len(),
    ensures
        i <= find_conflict(cs, id, i) <= cs.len(),
        find_conflict(cs, id, i) < cs.len() ==> cs[find_conflict(cs, id, i)].id == id,
        forall|j: int| i <= j < find_conflict(cs, id, i) ==> (#[trigger] cs[j]).id != id,
    decreases cs.len() - i,
{
    if i < cs.len() && cs[i].id != id {
        find_conflict_spec(cs, id, i + 1);
    }
}

/// The position of the conflict with the given identifier, if it is there.
pub fn position_of_conflict(rows: &Vec<ConflictRow>, id: i64) -> (r: Option<usize>)
    ensures
        match r {
            Some(i) => i < rows@.len() && i == find_conflict(conflict_models(rows@), id, 0),
            None => find_conflict(conflict_models(rows@), id, 0) == rows@.len(),
        },
{
    let ghost cs = conflict_models(rows@);
    let mut i: usize = 0;
    while i < rows.len()
        invariant
            i <= rows@.len(),
            cs == conflict_models(rows@),
            find_conflict(cs, id, 0) == find_conflict(cs, id, i as int),
        decreases rows@.len() - i,
    {
        assert(cs[i as int] == rows@[i as int]@);
        if rows[i].id == id {
            return Some(i);
        }
        i = i + 1;
    }
    None
}

} // verus!
