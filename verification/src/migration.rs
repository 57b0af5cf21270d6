//! Collapsing rows that record one version twice.
//!
//! Tables written before versions were unique may hold several rows with one
//! path, state and clock. The row with the lowest identifier stays, and conflicts
//! that reference another one are pointed to it.

use crate::history::{ConflictModel, ConflictRow, VersionModel, VersionRow};
use crate::queries;
use crate::store;
use vstd::prelude::*;

verus! {

/// The first row of each version, in order.
pub open spec fn first_rows(vs: Seq<VersionModel>) -> Seq<VersionModel>
    decreases vs.len(),
{
    if vs.len() == 0 {
        seq![]
    } else if queries::find_identity(vs.drop_last(), vs.last(), 0) < vs.len() - 1 {
        first_rows(vs.drop_last())
    } else {
        first_rows(vs.drop_last()).push(vs.last())
    }
}

/// The identifier of the first row of the version that has the row `id`.
pub open spec fn first_id(vs: Seq<VersionModel>, id: i64) -> i64 {
    vs[queries::find_identity(vs, vs[queries::find_version(vs, id, 0)], 0)].id
}

/// The conflicts, pointed to first rows.
pub open spec fn repointed(cs: Seq<ConflictModel>, vs: Seq<VersionModel>) -> Seq<ConflictModel> {
    Seq::new(
        cs.len(),
        |i: int|
            ConflictModel {
                winner: first_id(vs, cs[i].winner),
                loser: first_id(vs, cs[i].loser),
                ..cs[i]
            },
    )
}

/// No two rows record one version.
pub open spec fn distinct_versions(vs: Seq<VersionModel>) -> bool {
    forall|i: int, j: int|
        0 <= i < j < vs.len() ==> !queries::same_identity(#[trigger] vs[i], #[trigger] vs[j])
}

/// Finding in a prefix.
proof fn find_in_prefix(vs: Seq<VersionModel>, v: VersionModel, k: int, i: int)
    requires
        0 <= i <= k <= vs.len(),
    ensures
        queries::find_identity(vs.take(k), v, i) == (if queries::find_identity(vs, v, i) < k {
            queries::find_identity(vs, v, i)
        } else {
            k
        }),
    decreases k - i,
{
    if i < k && !queries::same_identity(vs[i], v) {
        find_in_prefix(vs, v, k, i + 1);
    }
    queries::find_identity_spec(vs, v, i);
}

/// The first rows are rows; the first row of every version is among them; they
/// keep the order of identifiers, and no two are of one version.
pub proof fn first_rows_spec(vs: Seq<VersionModel>)
    requires
        forall|i: int, j: int|
            0 <= i < j < vs.len() ==> (#[trigger] vs[i]).id < (#[trigger] vs[j]).id,
    ensures
        forall|x: int|
            0 <= x < first_rows(vs).len() ==> exists|i: int|
                0 <= i < vs.len() && #[trigger] first_rows(vs)[x] == #[trigger] vs[i],
        forall|i: int|
            0 <= i < vs.len() && queries::find_identity(vs, #[trigger] vs[i], 0) == i
                ==> first_rows(vs).contains(vs[i]),
        forall|x: int, y: int|
            0 <= x < y < first_rows(vs).len() ==> (#[trigger] first_rows(vs)[x]).id < (
            #[trigger] first_rows(vs)[y]).id,
        distinct_versions(first_rows(vs)),
    decreases vs.len(),
{
    if vs.len() > 0 {
        let p = vs.drop_last();
        let v = vs.last();
        let n = vs.len() - 1;
        let f = first_rows(vs);
        let g = first_rows(p);
        assert(p =~= vs.take(n));
        first_rows_spec(p);
        queries::find_identity_spec(p, v, 0);
        assert forall|x: int| 0 <= x < f.len() implies exists|i: int|
            0 <= i < vs.len() && #[trigger] f[x] == #[trigger] vs[i] by {
            if x < g.len() {
                assert(f[x] == g[x]);
                let i = choose|i: int| 0 <= i < p.len() && #[trigger] g[x] == #[trigger] p[i];
                assert(vs[i] == p[i]);
            } else {
                assert(f[x] == vs[n]);
            }
        }
        assert forall|i: int|
            0 <= i < vs.len() && queries::find_identity(vs, #[trigger] vs[i], 0) == i implies f.contains(
            vs[i],
        ) by {
            find_in_prefix(vs, vs[i], n, 0);
            if i < n {
                assert(p[i] == vs[i]);
                assert(g.contains(p[i]));
                let x = g.index_of(p[i]);
                assert(f[x] == vs[i]);
            } else {
                assert(queries::find_identity(p, v, 0) == n);
                assert(f[f.len() - 1] == v);
            }
        }
        assert forall|x: int, y: int| 0 <= x < y < f.len() implies (#[trigger] f[x]).id < (
        #[trigger] f[y]).id && !queries::same_identity(f[x], f[y]) by {
            assert(f[x] == g[x]);
            if y < g.len() {
                assert(f[y] == g[y]);
            } else {
                let i = choose|i: int| 0 <= i < p.len() && #[trigger] g[x] == #[trigger] p[i];
                assert(vs[i] == p[i]);
                assert(vs[i].id < vs[n].id);
                assert(f[y] == v);
                assert(!queries::same_identity(p[i], v));
            }
        }
    }
}

/// The first row of a version that is recorded is found, and stays.
pub proof fn first_id_stays(vs: Seq<VersionModel>, id: i64)
    requires
        forall|i: int, j: int|
            0 <= i < j < vs.len() ==> (#[trigger] vs[i]).id < (#[trigger] vs[j]).id,
        store::has_version(vs, id),
    ensures
        queries::find_version(vs, id, 0) < vs.len(),
        queries::find_identity(vs, vs[queries::find_version(vs, id, 0)], 0) < vs.len(),
        store::has_version(first_rows(vs), first_id(vs, id)),
        first_id(vs, id) <= id,
{
    queries::find_version_spec(vs, id, 0);
    let k = queries::find_version(vs, id, 0);
    assert(k < vs.len());
    queries::find_identity_spec(vs, vs[k], 0);
    let j = queries::find_identity(vs, vs[k], 0);
    assert(j <= k);
    queries::find_identity_spec(vs, vs[j], 0);
    let i = queries::find_identity(vs, vs[j], 0);
    assert(queries::same_identity(vs[j], vs[k]));
    assert(i == j) by {
        if i < j {
            assert(queries::same_identity(vs[i], vs[k]));
        }
    }
    first_rows_spec(vs);
    assert(first_rows(vs).contains(vs[j]));
    let x = first_rows(vs).index_of(vs[j]);
    assert(first_rows(vs)[x].id == first_id(vs, id));
}

/// Whether the row at `i` is the first of its version, for each row.
fn first_flags(rows: &Vec<VersionRow>) -> (flags: Vec<bool>)
    ensures
        flags@.len() == rows@.len(),
        forall|i: int|
            0 <= i < flags@.len() ==> #[trigger] flags@[i] == (queries::find_identity(
                queries::version_models(rows@).take(i),
                rows@[i]@,
                0,
            ) == i),
{
    let mut flags: Vec<bool> = Vec::new();
    let mut i: usize = 0;
    while i < rows.len()
        invariant
            i <= rows@.len(),
            flags@.len() == i,
            forall|j: int|
                0 <= j < flags@.len() ==> #[trigger] flags@[j] == (queries::find_identity(
                    queries::version_models(rows@).take(j),
                    rows@[j]@,
                    0,
                ) == j),
        decreases rows@.len() - i,
    {
        let at = queries::position_of_identity(rows, i, &rows[i]);
        flags.push(at.is_none());
        i = i + 1;
    }
    flags
}

/// The first row of each version, in order.
pub fn keep_first_rows(rows: Vec<VersionRow>) -> (kept: Vec<VersionRow>)
    ensures
        queries::version_models(kept@) == first_rows(queries::version_models(rows@)),
{
    let ghost vs = queries::version_models(rows@);
    let flags = first_flags(&rows);
    let mut rows = rows;
    let mut kept: Vec<VersionRow> = Vec::new();
    let mut i: usize = 0;
    assert(vs.take(0) =~= Seq::<VersionModel>::empty());
    assert(queries::version_models(kept@) =~= first_rows(vs.take(0)));
    while i < rows.len()
        invariant
            i <= rows@.len(),
            rows@.len() == vs.len(),
            flags@.len() == vs.len(),
            forall|j: int| i <= j < rows@.len() ==> (#[trigger] rows@[j])@ == vs[j],
            forall|j: int|
                0 <= j < flags@.len() ==> #[trigger] flags@[j] == (queries::find_identity(
                    vs.take(j),
                    vs[j],
                    0,
                ) == j),
            queries::version_models(kept@) == first_rows(vs.take(i as int)),
        decreases rows@.len() - i,
    {
        let ghost before = kept@;
        proof {
            assert(vs.take(i + 1).drop_last() =~= vs.take(i as int));
            assert(vs.take(i + 1).last() == vs[i as int]);
            queries::find_identity_spec(vs.take(i as int), vs[i as int], 0);
        }
        if flags[i] {
            let mut row = VersionRow {
                id: 0,
                path: String::new(),
                state: 0,
                content_hash: None,
                size: None,
                manifest: None,
                clock: Vec::new(),
                replica: 0,
                wall_ms: 0,
                origin: 0,
                exec_bit: 0,
            };
            std::mem::swap(&mut row, &mut rows[i]);
            kept.push(row);
            assert(queries::version_models(kept@) =~= queries::version_models(before).push(
                vs[i as int],
            ));
        }
        i = i + 1;
    }
    assert(vs.take(i as int) =~= vs);
    kept
}

/// The identifier of the first row of the version that has the row `id`.
fn first_id_of(rows: &Vec<VersionRow>, id: i64) -> (first: i64)
    requires
        store::has_version(queries::version_models(rows@), id),
        forall|i: int, j: int|
            0 <= i < j < rows@.len() ==> (#[trigger] rows@[i]).id < (#[trigger] rows@[j]).id,
    ensures
        first == first_id(queries::version_models(rows@), id),
{
    let ghost vs = queries::version_models(rows@);
    let n: usize = rows.len();
    proof {
        assert forall|i: int, j: int| 0 <= i < j < vs.len() implies (#[trigger] vs[i]).id < (
        #[trigger] vs[j]).id by {
            assert(rows@[i].id < rows@[j].id);
        }
        first_id_stays(vs, id);
        assert(vs.take(n as int) =~= vs);
    }
    match queries::position_of_version(rows, id) {
        Some(k) => match queries::position_of_identity(rows, n, &rows[k]) {
            Some(j) => rows[j].id,
            None => id,
        },
        None => id,
    }
}

/// The conflicts, pointed to first rows.
pub fn repoint(conflicts: &Vec<ConflictRow>, rows: &Vec<VersionRow>) -> (out: Vec<ConflictRow>)
    requires
        forall|i: int, j: int|
            0 <= i < j < rows@.len() ==> (#[trigger] rows@[i]).id < (#[trigger] rows@[j]).id,
        forall|i: int|
            0 <= i < conflicts@.len() ==> store::has_version(
                queries::version_models(rows@),
                (#[trigger] conflicts@[i]).winner,
            ) && store::has_version(queries::version_models(rows@), conflicts@[i].loser),
    ensures
        queries::conflict_models(out@) == repointed(
            queries::conflict_models(conflicts@),
            queries::version_models(rows@),
        ),
{
    let ghost goal = repointed(
        queries::conflict_models(conflicts@),
        queries::version_models(rows@),
    );
    let mut out: Vec<ConflictRow> = Vec::new();
    let mut i: usize = 0;
    while i < conflicts.len()
        invariant
            i <= conflicts@.len(),
            out@.len() == i,
            goal == repointed(
                queries::conflict_models(conflicts@),
                queries::version_models(rows@),
            ),
            forall|i: int, j: int|
                0 <= i < j < rows@.len() ==> (#[trigger] rows@[i]).id < (#[trigger] rows@[j]).id,
            forall|i: int|
                0 <= i < conflicts@.len() ==> store::has_version(
                    queries::version_models(rows@),
                    (#[trigger] conflicts@[i]).winner,
                ) && store::has_version(queries::version_models(rows@), conflicts@[i].loser),
            forall|j: int| 0 <= j < out@.len() ==> (#[trigger] out@[j])@ == goal[j],
        decreases conflicts@.len() - i,
    {
        let row = &conflicts[i];
        let winner: i64 = first_id_of(rows, row.winner);
        let loser: i64 = first_id_of(rows, row.loser);
        let turned = ConflictRow {
            id: row.id,
            path: row.path.as_str().to_owned(),
            winner,
            loser,
            wall_ms: row.wall_ms,
            resolved: row.resolved,
        };
        assert(turned@ == goal[i as int]);
        out.push(turned);
        i = i + 1;
    }
    assert(queries::conflict_models(out@) =~= goal);
    out
}

} // verus!
