//! Laws of what goes into the tables: which versions get a row, which chunks are added,
//! and what collapsing and resolving leave.

use crate::chunking;
use crate::codec;
use crate::digest;
use crate::history;
use crate::history::{ChunkModel, ConflictModel, Fault, Origin, VersionModel};
use crate::index::EntryState;
use crate::migration;
use crate::queries;
use crate::reading;
use crate::recording;
use crate::recording::RecordModel;
use crate::store;
use crate::store::StoreModel;
use vstd::prelude::*;

verus! {

// ---- versions --------------------------------------------------------------
/// Two rows are of one version: the same path, the same state and the same clock.
pub open spec fn one_version(a: VersionModel, b: VersionModel) -> bool {
    a.path == b.path && a.state == b.state && a.clock == b.clock
}

/// The row is of the version that the record is of.
pub open spec fn row_is_of(v: VersionModel, r: RecordModel) -> bool {
    &&& v.path == r.path
    &&& v.state == match r.state {
        EntryState::Present(_) => 1i64,
        EntryState::Tombstone => 0i64,
    }
    &&& v.clock == codec::version(r.clock)
}

/// The row says what the record says.
pub open spec fn row_says(v: VersionModel, r: RecordModel) -> bool {
    &&& row_is_of(v, r)
    &&& history::from_sql(v.replica) == r.replica.0
    &&& history::from_sql(v.wall_ms) == r.wall_ms
    &&& Origin::of(v.origin) == r.origin
    &&& match r.state {
        EntryState::Present(sig) => {
            &&& v.content_hash == Some(sig.hash.0@)
            &&& v.size is Some
            &&& history::from_sql(v.size->Some_0) == sig.size
            &&& (v.exec_bit != 0) == sig.exec_bit
            &&& v.manifest is Some
        },
        EntryState::Tombstone => v.content_hash is None && v.size is None && v.manifest is None,
    }
}

/// Law: a version gets one row. Where a row of it is there, no version row is added or
/// altered and the identifier is that of its first row; else one row that says what the
/// record says is added behind the others, under the next identifier. Conflicts stay as
/// they are.
pub proof fn a_version_gets_one_row(m: StoreModel, r: RecordModel, t: StoreModel, id: i64)
    requires
        store::recorded(m, r) == Ok::<(StoreModel, i64), Fault>((t, id)),
        m.last_version < i64::MAX,
    ensures
        t.conflicts == m.conflicts,
        t.last_conflict == m.last_conflict,
        (exists|i: int| 0 <= i < m.versions.len() && row_is_of(#[trigger] m.versions[i], r)) ==> {
            &&& t.versions == m.versions
            &&& t.last_version == m.last_version
            &&& exists|i: int|
                0 <= i < m.versions.len() && row_is_of(#[trigger] m.versions[i], r)
                    && m.versions[i].id == id && forall|j: int|
                    0 <= j < i ==> !row_is_of(#[trigger] m.versions[j], r)
        },
        !(exists|i: int| 0 <= i < m.versions.len() && row_is_of(#[trigger] m.versions[i], r)) ==> {
            &&& t.versions.len() == m.versions.len() + 1
            &&& t.versions.drop_last() == m.versions
            &&& t.versions.last().id == id
            &&& row_says(t.versions.last(), r)
            &&& id == m.last_version + 1
            &&& t.last_version == id
        },
{
    let row = recording::row_of(r);
    queries::find_identity_spec(m.versions, row, 0);
    let at = queries::find_identity(m.versions, row, 0);
    assert forall|i: int| 0 <= i < m.versions.len() implies row_is_of(#[trigger] m.versions[i], r)
        == queries::same_identity(m.versions[i], row) by {}
    if at < m.versions.len() {
        assert(row_is_of(m.versions[at], r));
    } else {
        assert(t.versions.drop_last() =~= m.versions);
        history::numbers_round_trip(r.replica.0, r.origin);
        history::numbers_round_trip(r.wall_ms, r.origin);
        match r.state {
            EntryState::Present(sig) => {
                history::numbers_round_trip(sig.size, r.origin);
            },
            EntryState::Tombstone => {},
        }
    }
}

/// Law: what can be recorded. A deletion always can. A file can where its content comes
/// with it, packs, and has the hash and the size that its signature declares; and else
/// the error says which of these fails.
pub proof fn only_declared_content_is_recorded(m: StoreModel, r: RecordModel)
    ensures
        match (r.state, r.bytes) {
            (EntryState::Tombstone, _) => store::recorded(m, r) is Ok,
            (EntryState::Present(_), None) => store::recorded(m, r) == Err::<
                (StoreModel, i64),
                Fault,
            >(Fault::MissingContent { path: r.path }),
            (EntryState::Present(sig), Some(b)) => {
                let ps = chunking::pieces(b);
                let packed = forall|i: int|
                    0 <= i < ps.len() ==> chunking::zstd_packed(
                        #[trigger] ps[i],
                        chunking::ZSTD_LEVEL,
                    ) is Ok;
                let declared = digest::digest(b) == sig.hash && b.len() == sig.size;
                &&& store::recorded(m, r) is Ok <==> packed && declared
                &&& packed && !declared ==> store::recorded(m, r) is Err && store::recorded(
                    m,
                    r,
                )->Err_0 is SigMismatch
                &&& !packed ==> store::recorded(m, r) is Err && store::recorded(
                    m,
                    r,
                )->Err_0 is Malformed
            },
        },
{
    match (r.state, r.bytes) {
        (EntryState::Present(sig), Some(b)) => {
            all_pack(chunking::pieces(b));
        },
        _ => {},
    }
}

proof fn all_pack(ps: Seq<Seq<u8>>)
    ensures
        recording::pack_error(ps) is None <==> forall|i: int|
            0 <= i < ps.len() ==> chunking::zstd_packed(
                #[trigger] ps[i],
                chunking::ZSTD_LEVEL,
            ) is Ok,
    decreases ps.len(),
{
    if ps.len() > 0 {
        let front = ps.drop_last();
        all_pack(front);
        assert(ps[ps.len() - 1] == ps.last());
        if recording::pack_error(front) is None {
            assert forall|i: int| 0 <= i < ps.len() && i != ps.len() - 1 implies
                chunking::zstd_packed(#[trigger] ps[i], chunking::ZSTD_LEVEL) is Ok by {
                assert(front[i] == ps[i]);
            }
        } else {
            let i = choose|i: int|
                0 <= i < front.len() && chunking::zstd_packed(
                    #[trigger] front[i],
                    chunking::ZSTD_LEVEL,
                ) is Err;
            assert(ps[i] == front[i]);
        }
    }
}

// ---- chunks ----------------------------------------------------------------
/// A chunk with the key is among the chunks.
pub open spec fn held(cs: Seq<ChunkModel>, key: Seq<u8>) -> bool {
    exists|i: int| 0 <= i < cs.len() && (#[trigger] cs[i]).hash == key
}

proof fn held_is_found(cs: Seq<ChunkModel>, key: Seq<u8>)
    ensures
        held(cs, key) == (reading::chunk_at(cs, key) is Some),
        reading::chunk_at(cs, key) is Some ==> cs.contains(reading::chunk_at(cs, key)->Some_0)
            && reading::chunk_at(cs, key)->Some_0.hash == key,
{
    reading::find_chunk_spec(cs, key, 0);
    let at = reading::find_chunk(cs, key, 0);
    if at < cs.len() {
        assert(cs[at].hash == key);
    }
}

/// Law: adding chunks leaves those that are there as they are, adds each given one whose
/// key is not there yet, and adds nothing else; no key is added twice.
pub proof fn chunks_are_added_once(cs: Seq<ChunkModel>, rows: Seq<ChunkModel>)
    ensures
        ({
            let t = store::with_chunks(cs, rows);
            &&& cs.is_prefix_of(t)
            &&& forall|i: int| 0 <= i < rows.len() ==> held(t, (#[trigger] rows[i]).hash)
            &&& forall|j: int| cs.len() <= j < t.len() ==> rows.contains(#[trigger] t[j])
            &&& forall|i: int, j: int|
                0 <= i < j < t.len() && cs.len() <= j ==> (#[trigger] t[i]).hash != (
                #[trigger] t[j]).hash
        }),
    decreases rows.len(),
{
    let t = store::with_chunks(cs, rows);
    if rows.len() > 0 {
        let front = rows.drop_last();
        let s = store::with_chunks(cs, front);
        chunks_are_added_once(cs, front);
        held_is_found(s, rows.last().hash);
        assert(rows[rows.len() - 1] == rows.last());
        assert forall|k: int| 0 <= k < s.len() implies #[trigger] t[k] == s[k] by {}
        assert forall|i: int| 0 <= i < rows.len() implies held(t, (#[trigger] rows[i]).hash) by {
            if i < front.len() {
                assert(front[i] == rows[i]);
                let k = choose|k: int| 0 <= k < s.len() && (#[trigger] s[k]).hash == rows[i].hash;
                assert(t[k] == s[k]);
            } else if held(s, rows.last().hash) {
                let k = choose|k: int|
                    0 <= k < s.len() && (#[trigger] s[k]).hash == rows.last().hash;
                assert(t[k] == s[k]);
            } else {
                assert(t[s.len() as int] == rows.last());
            }
        }
        assert forall|j: int| cs.len() <= j < t.len() implies rows.contains(#[trigger] t[j]) by {
            if j < s.len() {
                assert(front.contains(s[j]));
                let i = front.index_of(s[j]);
                assert(rows[i] == t[j]);
            }
        }
        assert(cs.is_prefix_of(t)) by {
            assert(cs =~= t.subrange(0, cs.len() as int));
        }
    }
}

/// The sizes of the chunks behind the first `n`, added up.
pub open spec fn added_size(cs: Seq<ChunkModel>, n: int) -> nat
    decreases cs.len() - n,
{
    if n >= cs.len() || n < 0 {
        0
    } else {
        history::from_sql(cs[n].size) as nat + added_size(cs, n + 1)
    }
}

proof fn added_size_push(cs: Seq<ChunkModel>, c: ChunkModel, n: int)
    requires
        0 <= n <= cs.len(),
    ensures
        added_size(cs.push(c), n) == added_size(cs, n) + history::from_sql(c.size) as nat,
    decreases cs.len() - n,
{
    if n < cs.len() {
        added_size_push(cs, c, n + 1);
        assert(cs.push(c)[n] == cs[n]);
    } else {
        assert(added_size(cs.push(c), n + 1) == 0);
    }
}

/// Law: the number of bytes that storing adds is the size of the chunks that it adds.
pub proof fn fresh_bytes_are_those_added(cs: Seq<ChunkModel>, ps: Seq<Seq<u8>>)
    requires
        forall|i: int| 0 <= i < ps.len() ==> (#[trigger] ps[i]).len() <= u64::MAX,
    ensures
        store::fresh_bytes(cs, ps) == added_size(
            store::with_chunks(cs, recording::chunk_rows(ps)),
            cs.len() as int,
        ),
    decreases ps.len(),
{
    if ps.len() > 0 {
        let front = ps.drop_last();
        assert forall|i: int| 0 <= i < front.len() implies (#[trigger] front[i]).len()
            <= u64::MAX by {
            assert(front[i] == ps[i]);
        }
        fresh_bytes_are_those_added(cs, front);
        let rows = recording::chunk_rows(ps);
        assert(rows.drop_last() =~= recording::chunk_rows(front));
        let s = store::with_chunks(cs, recording::chunk_rows(front));
        chunks_are_added_once(cs, recording::chunk_rows(front));
        let row = recording::chunk_row(ps.last());
        assert(rows.last() == row);
        assert(ps[ps.len() - 1] == ps.last());
        history::numbers_round_trip(ps.last().len() as u64, Origin::Local);
        added_size_push(s, row, cs.len() as int);
    }
}

// ---- collapsing ------------------------------------------------------------
/// The row at `i` is the first of its version.
pub open spec fn is_first(vs: Seq<VersionModel>, i: int) -> bool {
    0 <= i < vs.len() && forall|j: int| 0 <= j < i ==> !one_version(#[trigger] vs[j], vs[i])
}

/// The row is the first of its version.
pub open spec fn comes_first(vs: Seq<VersionModel>, v: VersionModel) -> bool {
    exists|i: int| #[trigger] is_first(vs, i) && vs[i] == v
}

/// Law: collapsing leaves exactly the first row of every version, in their order.
pub proof fn collapsing_leaves_the_first_rows(m: StoreModel)
    requires
        store::store_ok(m),
    ensures
        ({
            let t = store::deduplicated(m);
            &&& t.chunks == m.chunks
            &&& forall|v: VersionModel| #[trigger]
                t.versions.contains(v) <==> comes_first(m.versions, v)
            &&& forall|x: int, y: int|
                0 <= x < y < t.versions.len() ==> (#[trigger] t.versions[x]).id < (
                #[trigger] t.versions[y]).id
        }),
{
    migration::first_rows_spec(m.versions);
    assert forall|v: VersionModel| #[trigger]
        migration::first_rows(m.versions).contains(v) == comes_first(m.versions, v) by {
        a_row_that_stays(m.versions, v);
    }
}

proof fn first_in_front(vs: Seq<VersionModel>, i: int)
    requires
        0 <= i < vs.len() - 1,
    ensures
        is_first(vs, i) == is_first(vs.drop_last(), i),
{
    let p = vs.drop_last();
    assert(forall|j: int| 0 <= j <= i ==> #[trigger] p[j] == vs[j]);
    if is_first(p, i) {
        assert forall|j: int| 0 <= j < i implies !one_version(#[trigger] vs[j], vs[i]) by {
            assert(!one_version(p[j], p[i]));
        }
    }
}

proof fn a_row_that_stays(vs: Seq<VersionModel>, v: VersionModel)
    ensures
        migration::first_rows(vs).contains(v) == comes_first(vs, v),
    decreases vs.len(),
{
    if vs.len() > 0 {
        let p = vs.drop_last();
        let n = vs.len() - 1;
        let f = migration::first_rows(vs);
        let g = migration::first_rows(p);
        a_row_that_stays(p, v);
        queries::find_identity_spec(p, vs.last(), 0);
        let at = queries::find_identity(p, vs.last(), 0);
        assert(is_first(vs, n) == (at == n)) by {
            if at < n {
                assert(p[at] == vs[at]);
                assert(one_version(vs[at], vs[n]));
            } else {
                assert forall|j: int| 0 <= j < n implies !one_version(#[trigger] vs[j], vs[n]) by {
                    assert(p[j] == vs[j]);
                    assert(!queries::same_identity(p[j], vs.last()));
                }
            }
        }
        assert(f.contains(v) == (g.contains(v) || (at == n && v == vs.last()))) by {
            if at == n {
                if g.contains(v) {
                    let x = g.index_of(v);
                    assert(f[x] == v);
                }
                assert(f[g.len() as int] == vs.last());
            }
        }
        if comes_first(p, v) {
            let i = choose|i: int| #[trigger] is_first(p, i) && p[i] == v;
            first_in_front(vs, i);
            assert(is_first(vs, i) && vs[i] == v);
        }
        if comes_first(vs, v) {
            let i = choose|i: int| #[trigger] is_first(vs, i) && vs[i] == v;
            if i < n {
                first_in_front(vs, i);
                assert(is_first(p, i) && p[i] == v);
            }
        }
    }
}

/// Law: collapsing leaves every conflict, and points each side of it to the first row of
/// the version that it was of.
pub proof fn collapsing_keeps_conflicts(m: StoreModel, k: int, w: int, l: int, fw: int, fl: int)
    requires
        store::store_ok(m),
        0 <= k < m.conflicts.len(),
        0 <= w < m.versions.len(),
        m.versions[w].id == m.conflicts[k].winner,
        0 <= l < m.versions.len(),
        m.versions[l].id == m.conflicts[k].loser,
        is_first(m.versions, fw),
        one_version(m.versions[fw], m.versions[w]),
        is_first(m.versions, fl),
        one_version(m.versions[fl], m.versions[l]),
    ensures
        ({
            let t = store::deduplicated(m);
            &&& t.conflicts.len() == m.conflicts.len()
            &&& t.conflicts[k] == (ConflictModel {
                winner: m.versions[fw].id,
                loser: m.versions[fl].id,
                ..m.conflicts[k]
            })
        }),
{
    first_row_is_found(m, w, fw);
    first_row_is_found(m, l, fl);
}

proof fn first_row_is_found(m: StoreModel, w: int, f: int)
    requires
        store::store_ok(m),
        0 <= w < m.versions.len(),
        is_first(m.versions, f),
        one_version(m.versions[f], m.versions[w]),
    ensures
        migration::first_id(m.versions, m.versions[w].id) == m.versions[f].id,
{
    let vs = m.versions;
    let id = vs[w].id;
    queries::find_version_spec(vs, id, 0);
    let at = queries::find_version(vs, id, 0);
    assert(at <= w);
    assert(at == w);
    queries::find_identity_spec(vs, vs[w], 0);
    let first = queries::find_identity(vs, vs[w], 0);
    assert(queries::same_identity(vs[f], vs[w]));
    if first < f {
        assert(one_version(vs[first], vs[f]));
    }
}

// ---- resolving -------------------------------------------------------------
/// Law: marking a conflict turns the flag of the conflict with the identifier, where its
/// flag is the other way, says whether it did, and alters nothing else.
pub proof fn marking_touches_one_conflict(m: StoreModel, id: i64, from: i64, to: i64)
    requires
        store::store_ok(m),
    ensures
        ({
            let (t, turned) = store::flag_turned(m, id, from, to);
            &&& turned <==> exists|i: int|
                0 <= i < m.conflicts.len() && (#[trigger] m.conflicts[i]).id == id
                    && m.conflicts[i].resolved == from
            &&& t.conflicts.len() == m.conflicts.len()
            &&& forall|i: int|
                0 <= i < m.conflicts.len() ==> (#[trigger] t.conflicts[i]) == if m.conflicts[i].id
                    == id && m.conflicts[i].resolved == from {
                    ConflictModel { resolved: to, ..m.conflicts[i] }
                } else {
                    m.conflicts[i]
                }
            &&& t.chunks == m.chunks
            &&& t.versions == m.versions
            &&& t.last_version == m.last_version
            &&& t.last_conflict == m.last_conflict
        }),
{
    queries::find_conflict_spec(m.conflicts, id, 0);
    let at = queries::find_conflict(m.conflicts, id, 0);
    assert forall|i: int| 0 <= i < m.conflicts.len() && (#[trigger] m.conflicts[i]).id == id implies i
        == at by {
        if at < i {
            assert(m.conflicts[at].id < m.conflicts[i].id);
        }
    }
    if at < m.conflicts.len() {
        assert(m.conflicts[at].id == id);
    }
}

} // verus!
