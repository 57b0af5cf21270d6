//! Laws of reading content back and of the integrity check: what is read is what was
//! hashed, and what is damaged is found.

use crate::bytes;
use crate::chunking;
use crate::digest;
use crate::history;
use crate::history::{ChunkModel, Fault, VersionModel};
use crate::integrity;
use crate::keeping;
use crate::queries;
use crate::reading;
use crate::store;
use crate::store::StoreModel;
use vstd::prelude::*;

verus! {

// ---- reading ---------------------------------------------------------------
/// The chunk is intact and holds the plain bytes: it unpacks to them, and they have its
/// size and its key.
pub open spec fn holds(c: ChunkModel, plain: Seq<u8>) -> bool {
    &&& chunking::zstd_plain(c.zdata) == Ok::<Seq<u8>, Seq<char>>(plain)
    &&& plain.len() == history::from_sql(c.size)
    &&& digest::blake3_of(plain) == c.hash
}

/// The chunk is intact.
pub open spec fn intact(c: ChunkModel) -> bool {
    match chunking::zstd_plain(c.zdata) {
        Ok(plain) => holds(c, plain),
        Err(_) => false,
    }
}

/// Law: a chunk is unpacked if and only if it is intact, and to the bytes that it holds.
/// A damaged one is reported by its key.
pub proof fn only_intact_chunks_are_unpacked(c: ChunkModel)
    ensures
        ({
            let r = reading::unpacked(c.hash, history::from_sql(c.size), c.zdata);
            &&& r is Ok <==> intact(c)
            &&& r is Ok ==> holds(c, r->Ok_0)
            &&& r is Err ==> r->Err_0 is CorruptChunk && r->Err_0->CorruptChunk_hash
                == bytes::hex_text(c.hash)
        }),
{
}

/// No two chunks have one key.
pub open spec fn keys_differ(cs: Seq<ChunkModel>) -> bool {
    forall|i: int, j: int|
        0 <= i < j < cs.len() ==> (#[trigger] cs[i]).hash != (#[trigger] cs[j]).hash
}

/// The `i`th key that a manifest lists.
pub open spec fn key(m: Seq<u8>, i: int) -> Seq<u8> {
    m.subrange(32 * i, 32 * i + 32)
}

/// The parts, one after the other.
pub open spec fn chained(parts: Seq<Seq<u8>>) -> Seq<u8>
    decreases parts.len(),
{
    if parts.len() == 0 {
        seq![]
    } else {
        parts[0] + chained(parts.skip(1))
    }
}

proof fn chained_push(parts: Seq<Seq<u8>>)
    requires
        parts.len() > 0,
    ensures
        chained(parts) == chained(parts.drop_last()) + parts.last(),
    decreases parts.len(),
{
    if parts.len() == 1 {
        assert(parts.skip(1) =~= Seq::<Seq<u8>>::empty());
        assert(parts.drop_last() =~= Seq::<Seq<u8>>::empty());
        assert(chained(parts) =~= chained(parts.drop_last()) + parts.last());
    } else {
        chained_push(parts.skip(1));
        assert(parts.skip(1).drop_last() =~= parts.drop_last().skip(1));
        assert(parts.skip(1).last() == parts.last());
        assert(chained(parts) =~= chained(parts.drop_last()) + parts.last());
    }
}

proof fn chunk_with_key(cs: Seq<ChunkModel>, at: int)
    requires
        keys_differ(cs),
        0 <= at < cs.len(),
    ensures
        reading::chunk_at(cs, cs[at].hash) == Some(cs[at]),
{
    reading::find_chunk_spec(cs, cs[at].hash, 0);
    let k = reading::find_chunk(cs, cs[at].hash, 0);
    if k < at {
        assert(cs[k].hash != cs[at].hash);
    }
}

proof fn parts_are_assembled(
    id: i64,
    ks: Seq<Seq<u8>>,
    cs: Seq<ChunkModel>,
    at: Seq<int>,
    parts: Seq<Seq<u8>>,
)
    requires
        keys_differ(cs),
        at.len() == ks.len(),
        parts.len() == ks.len(),
        forall|i: int|
            0 <= i < ks.len() ==> 0 <= #[trigger] at[i] < cs.len() && cs[at[i]].hash == ks[i]
                && holds(cs[at[i]], parts[i]),
    ensures
        reading::assembled(id, ks, cs) == Ok::<Seq<u8>, Fault>(chained(parts)),
    decreases ks.len(),
{
    if ks.len() > 0 {
        let n = ks.len() - 1;
        let fewer = at.drop_last();
        assert forall|i: int| 0 <= i < n implies 0 <= #[trigger] fewer[i] < cs.len()
            && cs[fewer[i]].hash == ks.drop_last()[i] && holds(
            cs[fewer[i]],
            parts.drop_last()[i],
        ) by {
            assert(fewer[i] == at[i]);
        }
        parts_are_assembled(id, ks.drop_last(), cs, fewer, parts.drop_last());
        assert(0 <= at[n] < cs.len());
        chunk_with_key(cs, at[n]);
        only_intact_chunks_are_unpacked(cs[at[n]]);
        chained_push(parts);
    }
}

/// Law: content is read back. Where a version is not a deletion, its manifest lists the
/// keys of intact chunks, and the bytes that these hold, one after the other, have the
/// recorded hash, those bytes are what is read.
pub proof fn listed_chunks_are_put_together(
    v: VersionModel,
    cs: Seq<ChunkModel>,
    at: Seq<int>,
    parts: Seq<Seq<u8>>,
)
    requires
        keys_differ(cs),
        v.state != 0,
        v.content_hash == Some(digest::blake3_of(chained(parts))),
        digest::blake3_of(chained(parts)).len() == 32,
        v.manifest is Some,
        v.manifest->Some_0.len() == 32 * parts.len(),
        at.len() == parts.len(),
        forall|i: int|
            0 <= i < at.len() ==> 0 <= #[trigger] at[i] < cs.len() && cs[at[i]].hash == key(
                v.manifest->Some_0,
                i,
            ) && holds(cs[at[i]], parts[i]),
    ensures
        reading::content_of(v, cs) == Ok::<Seq<u8>, Fault>(chained(parts)),
{
    let m = v.manifest->Some_0;
    let ks = reading::keys(m);
    assert(ks.len() == parts.len());
    assert forall|i: int| 0 <= i < ks.len() implies 0 <= #[trigger] at[i] < cs.len()
        && cs[at[i]].hash == ks[i] && holds(cs[at[i]], parts[i]) by {
        assert(ks[i] == key(m, i));
    }
    parts_are_assembled(v.id, ks, cs, at, parts);
}

/// The chunk that a version lists in its `i`th place is missing or damaged.
pub open spec fn lacks(cs: Seq<ChunkModel>, k: Seq<u8>) -> bool {
    forall|j: int| 0 <= j < cs.len() && (#[trigger] cs[j]).hash == k ==> !intact(cs[j])
}

proof fn a_lack_stops(id: i64, ks: Seq<Seq<u8>>, cs: Seq<ChunkModel>, i: int)
    requires
        0 <= i < ks.len(),
        lacks(cs, ks[i]),
    ensures
        reading::assembled(id, ks, cs) is Err,
    decreases ks.len(),
{
    if i < ks.len() - 1 {
        a_lack_stops(id, ks.drop_last(), cs, i);
    } else {
        reading::find_chunk_spec(cs, ks[i], 0);
        let at = reading::find_chunk(cs, ks[i], 0);
        if at < cs.len() {
            only_intact_chunks_are_unpacked(cs[at]);
        }
    }
}

/// Law: nothing is read where something is wrong. A deletion has no content; a version
/// without a hash or a manifest, or with a manifest that lists no whole number of keys, is
/// refused; so is one of whose chunks one is missing or damaged.
pub proof fn damaged_content_is_not_read(v: VersionModel, cs: Seq<ChunkModel>, i: int)
    requires
        v.state == 0 || v.content_hash is None || v.manifest is None
            || v.manifest->Some_0.len() % 32 != 0 || (0 <= i < v.manifest->Some_0.len() / 32
            && lacks(cs, key(v.manifest->Some_0, i))),
    ensures
        reading::content_of(v, cs) is Err,
        v.state == 0 ==> reading::content_of(v, cs) == Err::<Seq<u8>, Fault>(
            Fault::NotPresent(v.id),
        ),
{
    if v.state != 0 && v.content_hash is Some && v.manifest is Some && v.manifest->Some_0.len() % 32
        == 0 {
        let ks = reading::keys(v.manifest->Some_0);
        assert(ks[i] == key(v.manifest->Some_0, i));
        a_lack_stops(v.id, ks, cs, i);
    }
}

/// Law: a version's content is that of its row, and an identifier without a row is said to
/// be none.
pub proof fn a_version_is_read_by_its_row(m: StoreModel, id: i64)
    requires
        store::store_ok(m),
    ensures
        forall|i: int|
            0 <= i < m.versions.len() && (#[trigger] m.versions[i]).id == id ==> store::content(
                m,
                id,
            ) == reading::content_of(m.versions[i], m.chunks),
        (forall|i: int| 0 <= i < m.versions.len() ==> (#[trigger] m.versions[i]).id != id)
            ==> store::content(m, id) == Err::<Seq<u8>, Fault>(Fault::NoSuchVersion(id)),
{
    queries::find_version_spec(m.versions, id, 0);
    let at = queries::find_version(m.versions, id, 0);
    assert forall|i: int| 0 <= i < m.versions.len() && (#[trigger] m.versions[i]).id == id implies
        store::content(m, id) == reading::content_of(m.versions[i], m.chunks) by {
        if at < i {
            assert(m.versions[at].id < m.versions[i].id);
        }
    }
    if at < m.versions.len() {
        assert(m.versions[at].id == id);
    }
}

// ---- the check -------------------------------------------------------------
/// The version has a manifest of whole keys, and a chunk for each.
pub open spec fn complete(v: VersionModel, cs: Seq<ChunkModel>) -> bool {
    &&& v.manifest is Some
    &&& v.manifest->Some_0.len() % 32 == 0
    &&& forall|i: int|
        0 <= i < v.manifest->Some_0.len() / 32 ==> keeping::held(
            cs,
            #[trigger] key(v.manifest->Some_0, i),
        )
}

/// The recorded sizes of the chunks at the given positions, added up.
pub open spec fn total(cs: Seq<ChunkModel>, at: Seq<int>) -> nat
    decreases at.len(),
{
    if at.len() == 0 {
        0
    } else {
        history::from_sql(cs[at[0]].size) as nat + total(cs, at.skip(1))
    }
}

proof fn total_push(cs: Seq<ChunkModel>, at: Seq<int>)
    requires
        at.len() > 0,
    ensures
        total(cs, at) == total(cs, at.drop_last()) + history::from_sql(cs[at.last()].size) as nat,
    decreases at.len(),
{
    if at.len() == 1 {
        assert(at.skip(1) =~= Seq::<int>::empty());
        assert(at.drop_last() =~= Seq::<int>::empty());
        assert(total(cs, at.skip(1)) == 0);
    } else {
        total_push(cs, at.skip(1));
        assert(at.skip(1).drop_last() =~= at.drop_last().skip(1));
        assert(at.skip(1).last() == at.last());
    }
}

/// The positions are those of the chunks that the version lists, in order.
pub open spec fn listed_at(v: VersionModel, cs: Seq<ChunkModel>, at: Seq<int>) -> bool {
    &&& v.manifest is Some
    &&& v.manifest->Some_0.len() == 32 * at.len()
    &&& forall|i: int|
        0 <= i < at.len() ==> 0 <= #[trigger] at[i] < cs.len() && cs[at[i]].hash == key(
            v.manifest->Some_0,
            i,
        )
}

proof fn sizes_are_summed(ks: Seq<Seq<u8>>, cs: Seq<ChunkModel>, at: Seq<int>)
    requires
        keys_differ(cs),
        at.len() == ks.len(),
        forall|i: int|
            0 <= i < at.len() ==> 0 <= #[trigger] at[i] < cs.len() && cs[at[i]].hash == ks[i],
    ensures
        integrity::summed(ks, cs) == if total(cs, at) > u64::MAX {
            u64::MAX as nat
        } else {
            total(cs, at)
        },
    decreases ks.len(),
{
    if ks.len() > 0 {
        let n = ks.len() - 1;
        let fewer = at.drop_last();
        assert forall|i: int| 0 <= i < n implies 0 <= #[trigger] fewer[i] < cs.len()
            && cs[fewer[i]].hash == ks.drop_last()[i] by {
            assert(fewer[i] == at[i]);
        }
        sizes_are_summed(ks.drop_last(), cs, fewer);
        assert(0 <= at[n] < cs.len());
        chunk_with_key(cs, at[n]);
        total_push(cs, at);
    }
}

proof fn missing_are_told(id: i64, ks: Seq<Seq<u8>>, cs: Seq<ChunkModel>)
    ensures
        integrity::missing_chunks(id, ks, cs).len() == 0 <==> forall|i: int|
            0 <= i < ks.len() ==> keeping::held(cs, #[trigger] ks[i]),
        forall|i: int|
            0 <= i < ks.len() && !keeping::held(cs, #[trigger] ks[i])
                ==> integrity::missing_chunks(id, ks, cs).contains(
                integrity::about(id) + "missing chunk "@ + bytes::hex_text(ks[i]),
            ),
    decreases ks.len(),
{
    if ks.len() > 0 {
        let front = ks.drop_last();
        let k = ks.last();
        missing_are_told(id, front, cs);
        reading::find_chunk_spec(cs, k, 0);
        let at = reading::find_chunk(cs, k, 0);
        assert(keeping::held(cs, k) == (at < cs.len())) by {
            if at < cs.len() {
                assert(cs[at].hash == k);
            }
        }
        assert(ks[ks.len() - 1] == k);
        let before = integrity::missing_chunks(id, front, cs);
        let all = integrity::missing_chunks(id, ks, cs);
        if all.len() == 0 {
            assert forall|i: int| 0 <= i < ks.len() implies keeping::held(cs, #[trigger] ks[i]) by {
                if i < front.len() {
                    assert(front[i] == ks[i]);
                }
            }
        }
        if forall|i: int| 0 <= i < ks.len() ==> keeping::held(cs, #[trigger] ks[i]) {
            assert forall|i: int| 0 <= i < front.len() implies keeping::held(
                cs,
                #[trigger] front[i],
            ) by {
                assert(front[i] == ks[i]);
            }
        }
        assert forall|i: int| 0 <= i < ks.len() && !keeping::held(cs, #[trigger] ks[i]) implies
            all.contains(
            integrity::about(id) + "missing chunk "@ + bytes::hex_text(ks[i]),
        ) by {
            let e = integrity::about(id) + "missing chunk "@ + bytes::hex_text(ks[i]);
            if i < front.len() {
                assert(front[i] == ks[i]);
                assert(before.contains(e));
                let x = before.index_of(e);
                assert(all[x] == e);
            } else {
                assert(all[all.len() - 1] == e);
            }
        }
    }
}

/// The check has nothing to say of a version: it is complete, and its recorded size, if it
/// has one, is the sum of its chunks' sizes.
pub open spec fn sound(v: VersionModel, cs: Seq<ChunkModel>) -> bool {
    &&& complete(v, cs)
    &&& forall|at: Seq<int>| #[trigger]
        listed_at(v, cs, at) && v.size is Some ==> history::from_sql(v.size->Some_0) == if total(
            cs,
            at,
        ) > u64::MAX {
            u64::MAX as nat
        } else {
            total(cs, at)
        }
}

/// The positions of the chunks that a complete version lists.
proof fn positions_exist(v: VersionModel, cs: Seq<ChunkModel>) -> (at: Seq<int>)
    requires
        complete(v, cs),
    ensures
        listed_at(v, cs, at),
{
    let m = v.manifest->Some_0;
    let at = Seq::new(
        m.len() / 32,
        |i: int| choose|j: int| 0 <= j < cs.len() && (#[trigger] cs[j]).hash == key(m, i),
    );
    assert forall|i: int| 0 <= i < at.len() implies 0 <= #[trigger] at[i] < cs.len()
        && cs[at[i]].hash == key(m, i) by {
        assert(keeping::held(cs, key(m, i)));
        let j = choose|j: int| 0 <= j < cs.len() && (#[trigger] cs[j]).hash == key(m, i);
        assert(at[i] == j);
    }
    at
}

proof fn sound_versions_raise_nothing(v: VersionModel, cs: Seq<ChunkModel>)
    requires
        keys_differ(cs),
    ensures
        integrity::version_issues(v, cs).len() == 0 <==> sound(v, cs),
{
    if v.manifest is Some && v.manifest->Some_0.len() % 32 == 0 {
        let m = v.manifest->Some_0;
        let ks = reading::keys(m);
        missing_are_told(v.id, ks, cs);
        assert forall|i: int| 0 <= i < ks.len() implies #[trigger] ks[i] == key(m, i) by {}
        if complete(v, cs) {
            assert forall|i: int| 0 <= i < ks.len() implies keeping::held(cs, #[trigger] ks[i]) by {
                assert(ks[i] == key(m, i));
            }
            let at = positions_exist(v, cs);
            sizes_are_summed(ks, cs, at);
            assert forall|other: Seq<int>| #[trigger] listed_at(v, cs, other) implies total(
                cs,
                other,
            ) == total(cs, at) by {
                assert forall|i: int| 0 <= i < at.len() implies other[i] == at[i] by {
                    assert(cs[other[i]].hash == key(m, i) && cs[at[i]].hash == key(m, i));
                    if other[i] < at[i] {
                        assert(cs[other[i]].hash != cs[at[i]].hash);
                    }
                    if at[i] < other[i] {
                        assert(cs[at[i]].hash != cs[other[i]].hash);
                    }
                }
                assert(other =~= at);
            }
        } else {
            let i = choose|i: int|
                0 <= i < m.len() / 32 && !keeping::held(cs, #[trigger] key(m, i));
            assert(ks[i] == key(m, i));
        }
    }
}

proof fn sound_tables_raise_nothing(vs: Seq<VersionModel>, cs: Seq<ChunkModel>)
    requires
        keys_differ(cs),
    ensures
        integrity::versions_issues(vs, cs).len() == 0 <==> forall|i: int|
            0 <= i < vs.len() && (#[trigger] vs[i]).state == 1 ==> sound(vs[i], cs),
    decreases vs.len(),
{
    if vs.len() > 0 {
        let front = vs.drop_last();
        sound_tables_raise_nothing(front, cs);
        sound_versions_raise_nothing(vs.last(), cs);
        assert(vs[vs.len() - 1] == vs.last());
        assert(forall|i: int| 0 <= i < front.len() ==> #[trigger] front[i] == vs[i]);
        if integrity::versions_issues(vs, cs).len() == 0 {
            assert forall|i: int| 0 <= i < vs.len() && (#[trigger] vs[i]).state == 1 implies sound(
                vs[i],
                cs,
            ) by {
                if i < front.len() {
                    assert(front[i] == vs[i]);
                }
            }
        }
    }
}

proof fn intact_chunks_raise_nothing(cs: Seq<ChunkModel>)
    ensures
        integrity::chunks_issues(cs).len() == 0 <==> forall|i: int|
            0 <= i < cs.len() ==> intact(#[trigger] cs[i]),
    decreases cs.len(),
{
    if cs.len() > 0 {
        let front = cs.drop_last();
        intact_chunks_raise_nothing(front);
        only_intact_chunks_are_unpacked(cs.last());
        assert(cs[cs.len() - 1] == cs.last());
        assert(forall|i: int| 0 <= i < front.len() ==> #[trigger] front[i] == cs[i]);
        if integrity::chunks_issues(cs).len() == 0 {
            assert forall|i: int| 0 <= i < cs.len() implies intact(#[trigger] cs[i]) by {
                if i < front.len() {
                    assert(front[i] == cs[i]);
                }
            }
        }
    }
}

/// Law: the check is content if and only if the database's own check says `ok`, every
/// version that is present has a manifest of whole keys with a chunk for each and the
/// size that these add up to, and every chunk is intact, listed or not.
pub proof fn the_check_finds_all_damage(
    quick: Seq<char>,
    vs: Seq<VersionModel>,
    cs: Seq<ChunkModel>,
)
    requires
        keys_differ(cs),
    ensures
        ({
            let r = integrity::report_of(quick, vs, cs);
            &&& r.ok <==> {
                &&& quick == "ok"@
                &&& forall|i: int|
                    0 <= i < vs.len() && (#[trigger] vs[i]).state == 1 ==> sound(vs[i], cs)
                &&& forall|i: int| 0 <= i < cs.len() ==> intact(#[trigger] cs[i])
            }
            &&& r.ok <==> r.issues.len() == 0
        }),
{
    sound_tables_raise_nothing(vs, cs);
    intact_chunks_raise_nothing(cs);
}

/// Law: the check counts every version that is present and every chunk.
pub proof fn the_check_counts_what_it_examines(
    quick: Seq<char>,
    vs: Seq<VersionModel>,
    cs: Seq<ChunkModel>,
)
    ensures
        ({
            let r = integrity::report_of(quick, vs, cs);
            &&& r.versions_checked == vs.filter(|v: VersionModel| v.state == 1).len()
            &&& r.chunks_checked == cs.len()
        }),
{
    present_are_counted(vs);
}

proof fn present_are_counted(vs: Seq<VersionModel>)
    ensures
        integrity::present_count(vs) == vs.filter(|v: VersionModel| v.state == 1).len(),
    decreases vs.len(),
{
    reveal(Seq::filter);
    if vs.len() > 0 {
        present_are_counted(vs.drop_last());
    }
}

/// Law: the check names every chunk that a present version lists and that is missing.
pub proof fn missing_chunks_are_named(
    quick: Seq<char>,
    vs: Seq<VersionModel>,
    cs: Seq<ChunkModel>,
    k: int,
    i: int,
)
    requires
        0 <= k < vs.len(),
        vs[k].state == 1,
        vs[k].manifest is Some,
        vs[k].manifest->Some_0.len() % 32 == 0,
        0 <= i < vs[k].manifest->Some_0.len() / 32,
        !keeping::held(cs, key(vs[k].manifest->Some_0, i)),
    ensures
        integrity::report_of(quick, vs, cs).issues.contains(
            integrity::about(vs[k].id) + "missing chunk "@ + bytes::hex_text(
                key(vs[k].manifest->Some_0, i),
            ),
        ),
{
    let m = vs[k].manifest->Some_0;
    let e = integrity::about(vs[k].id) + "missing chunk "@ + bytes::hex_text(key(m, i));
    let ks = reading::keys(m);
    missing_are_told(vs[k].id, ks, cs);
    assert(ks[i] == key(m, i));
    let own = integrity::version_issues(vs[k], cs);
    let missing = integrity::missing_chunks(vs[k].id, ks, cs);
    let x = missing.index_of(e);
    assert(own[x] == e);
    issue_is_listed(vs, cs, k, x);
    let all = integrity::versions_issues(vs, cs);
    let y = all.index_of(e);
    let issues = integrity::report_of(quick, vs, cs).issues;
    assert(issues[integrity::file_issue(quick).len() + y] == e);
}

proof fn issue_is_listed(vs: Seq<VersionModel>, cs: Seq<ChunkModel>, k: int, x: int)
    requires
        0 <= k < vs.len(),
        vs[k].state == 1,
        0 <= x < integrity::version_issues(vs[k], cs).len(),
    ensures
        integrity::versions_issues(vs, cs).contains(integrity::version_issues(vs[k], cs)[x]),
    decreases vs.len(),
{
    let all = integrity::versions_issues(vs, cs);
    let e = integrity::version_issues(vs[k], cs)[x];
    let before = integrity::versions_issues(vs.drop_last(), cs);
    if k < vs.len() - 1 {
        assert(vs.drop_last()[k] == vs[k]);
        issue_is_listed(vs.drop_last(), cs, k, x);
        let y = before.index_of(e);
        assert(all[y] == e);
    } else {
        assert(all[before.len() + x] == e);
    }
}

/// Law: tables that pass the check can be read: the chunks of every version that is
/// present can be put together.
pub proof fn checked_tables_can_be_read(
    quick: Seq<char>,
    vs: Seq<VersionModel>,
    cs: Seq<ChunkModel>,
    k: int,
)
    requires
        keys_differ(cs),
        integrity::report_of(quick, vs, cs).ok,
        0 <= k < vs.len(),
        vs[k].state == 1,
        vs[k].content_hash is Some,
    ensures
        reading::content_of(vs[k], cs) is Ok || reading::content_of(vs[k], cs)->Err_0
            is ContentMismatch || vs[k].content_hash->Some_0.len() != 32,
{
    the_check_finds_all_damage(quick, vs, cs);
    let v = vs[k];
    assert(sound(v, cs));
    let at = positions_exist(v, cs);
    let m = v.manifest->Some_0;
    let ks = reading::keys(m);
    let parts = Seq::new(at.len(), |i: int| chunking::zstd_plain(cs[at[i]].zdata)->Ok_0);
    assert forall|i: int| 0 <= i < ks.len() implies 0 <= #[trigger] at[i] < cs.len()
        && cs[at[i]].hash == ks[i] && holds(cs[at[i]], parts[i]) by {
        assert(ks[i] == key(m, i));
        assert(0 <= at[i] < cs.len());
        assert(intact(cs[at[i]]));
    }
    parts_are_assembled(v.id, ks, cs, at, parts);
}

} // verus!
