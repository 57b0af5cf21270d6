//! What holds of the history store as a whole.

use crate::bytes;
use crate::chunking;
use crate::clock;
use crate::codec;
use crate::digest;
use crate::history;
use crate::history::{ChunkModel, ConflictModel, Fault, Origin, VersionId, VersionModel};
use crate::index::{ContentSig, EntryState};
use crate::integrity;
use crate::migration;
use crate::queries;
use crate::queries::PathModel;
use crate::reading;
use crate::reading::MetaModel;
use crate::recording;
use crate::recording::RecordModel;
use crate::store;
use crate::store::StoreModel;
use vstd::prelude::*;

verus! {

// ---- chunks are found again ------------------------------------------------
/// A chunk that is found stays found when chunks are appended.
proof fn found_in_longer(cs: Seq<ChunkModel>, more: Seq<ChunkModel>, hash: Seq<u8>, i: int)
    requires
        0 <= i <= cs.len(),
        reading::find_chunk(cs, hash, i) < cs.len(),
    ensures
        reading::find_chunk(cs + more, hash, i) == reading::find_chunk(cs, hash, i),
    decreases cs.len() - i,
{
    if i < cs.len() {
        assert((cs + more)[i] == cs[i]);
        if cs[i].hash != hash {
            found_in_longer(cs, more, hash, i + 1);
        }
    }
}

/// A chunk whose key was absent is found where it was appended.
proof fn found_at_end(cs: Seq<ChunkModel>, c: ChunkModel, i: int)
    requires
        0 <= i <= cs.len(),
        reading::find_chunk(cs, c.hash, i) == cs.len(),
    ensures
        reading::find_chunk(cs.push(c), c.hash, i) == cs.len(),
    decreases cs.len() - i,
{
    if i < cs.len() {
        assert(cs.push(c)[i] == cs[i]);
        reading::find_chunk_spec(cs, c.hash, i);
        assert(cs[i].hash != c.hash);
        found_at_end(cs, c, i + 1);
    }
}

/// Adding chunks appends to them: what was found before is found unchanged.
proof fn with_chunks_extends(cs: Seq<ChunkModel>, rows: Seq<ChunkModel>)
    ensures
        cs.len() <= store::with_chunks(cs, rows).len(),
        store::with_chunks(cs, rows).take(cs.len() as int) == cs,
    decreases rows.len(),
{
    if rows.len() > 0 {
        with_chunks_extends(cs, rows.drop_last());
        let t = store::with_chunks(cs, rows.drop_last());
        assert(t.push(rows.last()).take(cs.len() as int) =~= t.take(cs.len() as int));
    } else {
        assert(cs.take(cs.len() as int) =~= cs);
    }
}

/// What was found before chunks were added is found unchanged.
proof fn found_after_adding(cs: Seq<ChunkModel>, rows: Seq<ChunkModel>, hash: Seq<u8>)
    requires
        reading::chunk_at(cs, hash) is Some,
    ensures
        reading::chunk_at(store::with_chunks(cs, rows), hash) == reading::chunk_at(cs, hash),
{
    with_chunks_extends(cs, rows);
    let t = store::with_chunks(cs, rows);
    let more = t.skip(cs.len() as int);
    assert(t =~= cs + more);
    reading::find_chunk_spec(cs, hash, 0);
    found_in_longer(cs, more, hash, 0);
}

/// Every added chunk is found; it is one that was there, or one of those added.
proof fn added_is_found(cs: Seq<ChunkModel>, rows: Seq<ChunkModel>, i: int)
    requires
        0 <= i < rows.len(),
    ensures
        reading::chunk_at(store::with_chunks(cs, rows), rows[i].hash) is Some,
    decreases rows.len(),
{
    let last = rows.last();
    let before = store::with_chunks(cs, rows.drop_last());
    reading::find_chunk_spec(before, last.hash, 0);
    if i < rows.len() - 1 {
        added_is_found(cs, rows.drop_last(), i);
        assert(rows.drop_last()[i] == rows[i]);
        reading::find_chunk_spec(before, rows[i].hash, 0);
        if reading::chunk_at(before, last.hash) is None {
            found_in_longer(before, seq![last], rows[i].hash, 0);
            assert(before.push(last) =~= before + seq![last]);
        }
    } else {
        if reading::chunk_at(before, last.hash) is None {
            found_at_end(before, last, 0);
        }
    }
}

/// Law: storing a content a second time writes nothing: no chunk is added, and
/// no byte is new.
pub proof fn storing_twice_is_free(cs: Seq<ChunkModel>, bytes: Seq<u8>)
    ensures
        ({
            let ps = chunking::pieces(bytes);
            let once = store::with_chunks(cs, recording::chunk_rows(ps));
            &&& store::with_chunks(once, recording::chunk_rows(ps)) == once
            &&& store::fresh_bytes(once, ps) == 0
        }),
{
    let ps = chunking::pieces(bytes);
    let once = store::with_chunks(cs, recording::chunk_rows(ps));
    assert forall|i: int| 0 <= i < ps.len() implies reading::chunk_at(
        once,
        recording::chunk_row(#[trigger] ps[i]).hash,
    ) is Some by {
        assert(recording::chunk_rows(ps)[i] == recording::chunk_row(ps[i]));
        added_is_found(cs, recording::chunk_rows(ps), i);
    }
    nothing_to_add(once, ps);
}

proof fn nothing_to_add(cs: Seq<ChunkModel>, ps: Seq<Seq<u8>>)
    requires
        forall|i: int|
            0 <= i < ps.len() ==> reading::chunk_at(
                cs,
                recording::chunk_row(#[trigger] ps[i]).hash,
            ) is Some,
    ensures
        store::with_chunks(cs, recording::chunk_rows(ps)) == cs,
        store::fresh_bytes(cs, ps) == 0,
    decreases ps.len(),
{
    if ps.len() > 0 {
        let p = ps.drop_last();
        assert forall|i: int| 0 <= i < p.len() implies reading::chunk_at(
            cs,
            recording::chunk_row(#[trigger] p[i]).hash,
        ) is Some by {
            assert(p[i] == ps[i]);
        }
        nothing_to_add(cs, p);
        assert(recording::chunk_rows(ps).drop_last() =~= recording::chunk_rows(p));
        assert(recording::chunk_rows(ps).last() == recording::chunk_row(ps[ps.len() - 1]));
    } else {
        assert(recording::chunk_rows(ps) =~= Seq::<ChunkModel>::empty());
    }
}

// ---- content is read back --------------------------------------------------
/// The chunk unpacks to bytes of its size and its key.
pub open spec fn sound_chunk(c: ChunkModel) -> bool {
    reading::unpacked(c.hash, history::from_sql(c.size), c.zdata) is Ok
}

/// Every chunk is sound.
pub open spec fn sound_chunks(cs: Seq<ChunkModel>) -> bool {
    forall|i: int| 0 <= i < cs.len() ==> sound_chunk(#[trigger] cs[i])
}

/// The chunks that are there under the keys of the pieces are sound. Nothing is said
/// of other chunks.
pub open spec fn sound_under(cs: Seq<ChunkModel>, ps: Seq<Seq<u8>>) -> bool {
    forall|i: int, j: int|
        0 <= i < cs.len() && 0 <= j < ps.len() && (#[trigger] cs[i]).hash == digest::digest(
            #[trigger] ps[j],
        ).0@ ==> sound_chunk(cs[i])
}

/// No piece shares its digest with other bytes, among the pieces and the chunks.
pub open spec fn no_clash(cs: Seq<ChunkModel>, ps: Seq<Seq<u8>>) -> bool {
    &&& forall|i: int, j: int|
        0 <= i < cs.len() && 0 <= j < ps.len() && (#[trigger] cs[i]).hash == digest::digest(
            #[trigger] ps[j],
        ).0@ ==> chunking::zstd_plain(cs[i].zdata) == Ok::<Seq<u8>, Seq<char>>(ps[j])
    &&& forall|i: int, j: int|
        0 <= i < ps.len() && 0 <= j < ps.len() && digest::digest(#[trigger] ps[i])
            == digest::digest(#[trigger] ps[j]) ==> ps[i] == ps[j]
}

/// The chunk row of a piece that packs is sound and unpacks to the piece.
proof fn piece_row_sound(p: Seq<u8>)
    requires
        recording::packs(p),
        digest::proper(p),
        p.len() <= chunking::CDC_MAX,
    ensures
        ({
            let c = recording::chunk_row(p);
            reading::unpacked(c.hash, history::from_sql(c.size), c.zdata) == Ok::<Seq<u8>, Fault>(p)
        }),
{
    history::numbers_round_trip(p.len() as u64, Origin::Local);
}

/// Law: storing a content leaves every chunk sound.
pub proof fn storing_keeps_chunks_sound(cs: Seq<ChunkModel>, bytes: Seq<u8>)
    requires
        sound_chunks(cs),
        recording::storable(bytes),
    ensures
        sound_chunks(store::with_chunks(cs, recording::chunk_rows(chunking::pieces(bytes)))),
{
    let ps = chunking::pieces(bytes);
    chunking::pieces_rejoin(bytes);
    assert forall|i: int| 0 <= i < ps.len() implies sound_chunk(
        recording::chunk_row(#[trigger] ps[i]),
    ) by {
        piece_row_sound(ps[i]);
    }
    sound_rows_added(cs, ps);
}

proof fn sound_rows_added(cs: Seq<ChunkModel>, ps: Seq<Seq<u8>>)
    requires
        sound_chunks(cs),
        forall|i: int| 0 <= i < ps.len() ==> sound_chunk(recording::chunk_row(#[trigger] ps[i])),
    ensures
        sound_chunks(store::with_chunks(cs, recording::chunk_rows(ps))),
    decreases ps.len(),
{
    let rows = recording::chunk_rows(ps);
    if ps.len() > 0 {
        let p = ps.drop_last();
        assert forall|i: int| 0 <= i < p.len() implies sound_chunk(
            recording::chunk_row(#[trigger] p[i]),
        ) by {
            assert(p[i] == ps[i]);
        }
        sound_rows_added(cs, p);
        assert(rows.drop_last() =~= recording::chunk_rows(p));
        assert(rows.last() == recording::chunk_row(ps[ps.len() - 1]));
    }
}

/// After storing a content, the chunk with the key of each piece unpacks to the
/// piece.
proof fn piece_is_held(cs: Seq<ChunkModel>, ps: Seq<Seq<u8>>, k: int, i: int)
    requires
        sound_under(cs, ps),
        no_clash(cs, ps),
        0 <= i < k <= ps.len(),
        forall|j: int|
            0 <= j < ps.len() ==> recording::packs(#[trigger] ps[j]) && digest::proper(ps[j])
                && ps[j].len() <= chunking::CDC_MAX,
    ensures
        ({
            let t = store::with_chunks(cs, recording::chunk_rows(ps.take(k)));
            let h = digest::digest(ps[i]).0@;
            &&& reading::chunk_at(t, h) is Some
            &&& ({
                let c = reading::chunk_at(t, h)->Some_0;
                &&& reading::unpacked(h, history::from_sql(c.size), c.zdata) == Ok::<
                    Seq<u8>,
                    Fault,
                >(ps[i])
                &&& history::from_sql(c.size) == ps[i].len()
            })
        }),
    decreases k,
{
    let rows = recording::chunk_rows(ps.take(k));
    let part = recording::chunk_rows(ps.take(k - 1));
    let h = digest::digest(ps[i]).0@;
    let before = store::with_chunks(cs, part);
    assert(rows.drop_last() =~= part);
    let last = rows.last();
    assert(last == recording::chunk_row(ps[k - 1]));
    reading::find_chunk_spec(before, h, 0);
    reading::find_chunk_spec(before, last.hash, 0);
    if i < k - 1 {
        piece_is_held(cs, ps, k - 1, i);
        if reading::chunk_at(before, last.hash) is None {
            found_in_longer(before, seq![last], h, 0);
            assert(before.push(last) =~= before + seq![last]);
        }
    } else if reading::chunk_at(before, h) is None {
        found_at_end(before, last, 0);
        piece_row_sound(ps[i]);
        history::numbers_round_trip(ps[i].len() as u64, Origin::Local);
        assert(before.push(last)[before.len() as int] == last);
    } else {
        held_row_unpacks(cs, ps, k - 1, i);
    }
}

/// A chunk that is there under the key of a piece unpacks to the piece.
proof fn held_row_unpacks(cs: Seq<ChunkModel>, ps: Seq<Seq<u8>>, k: int, i: int)
    requires
        sound_under(cs, ps),
        no_clash(cs, ps),
        0 <= k <= ps.len(),
        0 <= i < ps.len(),
        forall|j: int|
            0 <= j < ps.len() ==> recording::packs(#[trigger] ps[j]) && digest::proper(ps[j])
                && ps[j].len() <= chunking::CDC_MAX,
        reading::chunk_at(
            store::with_chunks(cs, recording::chunk_rows(ps.take(k))),
            digest::digest(ps[i]).0@,
        ) is Some,
    ensures
        ({
            let t = store::with_chunks(cs, recording::chunk_rows(ps.take(k)));
            let h = digest::digest(ps[i]).0@;
            let c = reading::chunk_at(t, h)->Some_0;
            &&& reading::unpacked(h, history::from_sql(c.size), c.zdata) == Ok::<Seq<u8>, Fault>(
                ps[i],
            )
            &&& history::from_sql(c.size) == ps[i].len()
        }),
    decreases k,
{
    let h = digest::digest(ps[i]).0@;
    let rows = recording::chunk_rows(ps.take(k));
    if k == 0 {
        assert(rows =~= Seq::<ChunkModel>::empty());
        reading::find_chunk_spec(cs, h, 0);
        let at = reading::find_chunk(cs, h, 0);
        assert(cs[at].hash == digest::digest(ps[i]).0@);
        assert(sound_chunk(cs[at]));
    } else {
        let part = recording::chunk_rows(ps.take(k - 1));
        let before = store::with_chunks(cs, part);
        assert(rows.drop_last() =~= part);
        let last = rows.last();
        assert(last == recording::chunk_row(ps[k - 1]));
        reading::find_chunk_spec(before, h, 0);
        reading::find_chunk_spec(before, last.hash, 0);
        if reading::chunk_at(before, h) is Some {
            held_row_unpacks(cs, ps, k - 1, i);
            if reading::chunk_at(before, last.hash) is None {
                found_in_longer(before, seq![last], h, 0);
                assert(before.push(last) =~= before + seq![last]);
            }
        } else {
            let t = store::with_chunks(cs, rows);
            reading::find_chunk_spec(t, h, 0);
            let at = reading::find_chunk(t, h, 0);
            if at < before.len() {
                assert(t[at] == before[at]);
                assert(before[at].hash == h);
            }
            assert(t[at] == last);
            assert(last.hash == h);
            codec::array_of_view(digest::digest(ps[k - 1]).0);
            codec::array_of_view(digest::digest(ps[i]).0);
            assert(digest::digest(ps[k - 1]) == digest::digest(ps[i]));
            assert(ps[k - 1] == ps[i]);
            piece_row_sound(ps[i]);
            history::numbers_round_trip(ps[i].len() as u64, Origin::Local);
        }
    }
}

/// The keys of the pieces.
pub open spec fn piece_keys(ps: Seq<Seq<u8>>) -> Seq<Seq<u8>> {
    Seq::new(ps.len(), |i: int| digest::digest(ps[i]).0@)
}

/// A manifest lists the keys of the pieces.
pub proof fn manifest_lists_keys(ps: Seq<Seq<u8>>)
    ensures
        recording::manifest(ps).len() == 32 * ps.len(),
        reading::keys(recording::manifest(ps)) == piece_keys(ps),
    decreases ps.len(),
{
    let m = recording::manifest(ps);
    if ps.len() > 0 {
        let p = ps.drop_last();
        manifest_lists_keys(p);
        let n = p.len();
        assert forall|i: int| 0 <= i < ps.len() implies #[trigger] reading::keys(m)[i]
            == piece_keys(ps)[i] by {
            if i < n {
                assert(reading::keys(recording::manifest(p))[i] == piece_keys(p)[i]);
                assert(m.subrange(32 * i, 32 * i + 32) =~= recording::manifest(p).subrange(
                    32 * i,
                    32 * i + 32,
                ));
            } else {
                assert(m.subrange(32 * i, 32 * i + 32) =~= digest::digest(ps.last()).0@);
            }
        }
        assert(reading::keys(m) =~= piece_keys(ps));
    } else {
        assert(reading::keys(m) =~= piece_keys(ps));
    }
}

/// The chunks of the pieces, put together, are the pieces put together, and
/// their sizes sum up to the length of that.
proof fn pieces_assemble(version: i64, ps: Seq<Seq<u8>>, t: Seq<ChunkModel>)
    requires
        chunking::joined(ps).len() <= u64::MAX,
        forall|i: int|
            0 <= i < ps.len() ==> ({
                let h = digest::digest(#[trigger] ps[i]).0@;
                &&& reading::chunk_at(t, h) is Some
                &&& ({
                    let c = reading::chunk_at(t, h)->Some_0;
                    &&& reading::unpacked(h, history::from_sql(c.size), c.zdata) == Ok::<
                        Seq<u8>,
                        Fault,
                    >(ps[i])
                    &&& history::from_sql(c.size) == ps[i].len()
                })
            }),
    ensures
        reading::assembled(version, piece_keys(ps), t) == Ok::<Seq<u8>, Fault>(
            chunking::joined(ps),
        ),
        integrity::missing_chunks(version, piece_keys(ps), t) == Seq::<Seq<char>>::empty(),
        integrity::summed(piece_keys(ps), t) == chunking::joined(ps).len(),
    decreases ps.len(),
{
    if ps.len() > 0 {
        let p = ps.drop_last();
        assert forall|i: int| 0 <= i < p.len() implies ({
            let h = digest::digest(#[trigger] p[i]).0@;
            &&& reading::chunk_at(t, h) is Some
            &&& ({
                let c = reading::chunk_at(t, h)->Some_0;
                &&& reading::unpacked(h, history::from_sql(c.size), c.zdata) == Ok::<
                    Seq<u8>,
                    Fault,
                >(p[i])
                &&& history::from_sql(c.size) == p[i].len()
            })
        }) by {
            assert(p[i] == ps[i]);
        }
        pieces_assemble(version, p, t);
        assert(piece_keys(ps).drop_last() =~= piece_keys(p));
        assert(piece_keys(ps).last() == digest::digest(ps[ps.len() - 1]).0@);
    } else {
        assert(piece_keys(ps) =~= Seq::<Seq<u8>>::empty());
    }
}

/// A version that is recorded for the first time: none with its path, state and
/// clock is there.
pub open spec fn is_new(m: StoreModel, r: RecordModel) -> bool {
    queries::find_identity(m.versions, recording::row_of(r), 0) == m.versions.len()
}

/// The last row is found by its identifier.
proof fn last_is_found(vs: Seq<VersionModel>, i: int)
    requires
        0 <= i < vs.len(),
        forall|j: int| 0 <= j < vs.len() - 1 ==> (#[trigger] vs[j]).id < vs.last().id,
    ensures
        queries::find_version(vs, vs.last().id, i) == vs.len() - 1,
    decreases vs.len() - i,
{
    if i < vs.len() - 1 {
        assert(vs[i].id < vs.last().id);
        last_is_found(vs, i + 1);
    }
}

/// The chunks of a recorded content are held after it was recorded.
proof fn content_is_held(cs: Seq<ChunkModel>, bytes: Seq<u8>)
    requires
        sound_under(cs, chunking::pieces(bytes)),
        recording::storable(bytes),
        no_clash(cs, chunking::pieces(bytes)),
    ensures
        ({
            let ps = chunking::pieces(bytes);
            let t = store::with_chunks(cs, recording::chunk_rows(ps));
            forall|i: int|
                0 <= i < ps.len() ==> ({
                    let h = digest::digest(#[trigger] ps[i]).0@;
                    &&& reading::chunk_at(t, h) is Some
                    &&& ({
                        let c = reading::chunk_at(t, h)->Some_0;
                        &&& reading::unpacked(h, history::from_sql(c.size), c.zdata) == Ok::<
                            Seq<u8>,
                            Fault,
                        >(ps[i])
                        &&& history::from_sql(c.size) == ps[i].len()
                    })
                })
        }),
{
    let ps = chunking::pieces(bytes);
    chunking::pieces_rejoin(bytes);
    assert(ps.take(ps.len() as int) =~= ps);
    assert forall|j: int| 0 <= j < ps.len() implies recording::packs(#[trigger] ps[j])
        && digest::proper(ps[j]) && ps[j].len() <= chunking::CDC_MAX by {
    }
    let t = store::with_chunks(cs, recording::chunk_rows(ps));
    assert forall|i: int| 0 <= i < ps.len() implies ({
        let h = digest::digest(#[trigger] ps[i]).0@;
        &&& reading::chunk_at(t, h) is Some
        &&& ({
            let c = reading::chunk_at(t, h)->Some_0;
            &&& reading::unpacked(h, history::from_sql(c.size), c.zdata) == Ok::<Seq<u8>, Fault>(
                ps[i],
            )
            &&& history::from_sql(c.size) == ps[i].len()
        })
    }) by {
        piece_is_held(cs, ps, ps.len() as int, i);
    }
}

/// Law: the content of a version that was recorded is read back byte for byte.
///
/// The chunks that were there under the keys of the content are sound, and no piece of
/// the content shares its digest with other bytes. Damage elsewhere does not matter.
pub proof fn recorded_content_is_read_back(m: StoreModel, r: RecordModel, t: StoreModel, id: i64)
    requires
        store::store_ok(m),
        m.last_version < i64::MAX,
        r.state is Present,
        store::recorded(m, r) == Ok::<(StoreModel, i64), Fault>((t, id)),
        is_new(m, r),
        recording::storable(r.bytes->Some_0),
        sound_under(m.chunks, chunking::pieces(r.bytes->Some_0)),
        no_clash(m.chunks, chunking::pieces(r.bytes->Some_0)),
    ensures
        store::content(t, id) == Ok::<Seq<u8>, Fault>(r.bytes->Some_0),
{
    let b = r.bytes->Some_0;
    let ps = chunking::pieces(b);
    let row = t.versions.last();
    assert(row.id == id);
    assert(t.versions[t.versions.len() - 1] == row);
    assert forall|j: int| 0 <= j < t.versions.len() - 1 implies (#[trigger] t.versions[j]).id
        < row.id by {
        assert(t.versions[j] == m.versions[j]);
    }
    last_is_found(t.versions, 0);
    chunking::pieces_rejoin(b);
    content_is_held(m.chunks, b);
    manifest_lists_keys(ps);
    pieces_assemble(id, ps, t.chunks);
}

/// Law: whatever content is read has the hash that its version records.
pub proof fn content_is_what_was_hashed(m: StoreModel, id: i64, b: Seq<u8>)
    requires
        store::content(m, id) == Ok::<Seq<u8>, Fault>(b),
    ensures
        exists|i: int|
            0 <= i < m.versions.len() && (#[trigger] m.versions[i]).id == id && m.versions[i].state
                != 0 && m.versions[i].content_hash == Some(digest::blake3_of(b)),
{
    queries::find_version_spec(m.versions, id, 0);
    let i = queries::find_version(m.versions, id, 0);
    assert(m.versions[i].id == id);
}

// ---- what was recorded stays -----------------------------------------------
/// Whatever `m` holds, `t` holds too: the versions of `m` are the first of `t`,
/// and every chunk is found as before.
pub open spec fn keeps(m: StoreModel, t: StoreModel) -> bool {
    &&& m.versions.len() <= t.versions.len()
    &&& forall|i: int| 0 <= i < m.versions.len() ==> #[trigger] t.versions[i] == m.versions[i]
    &&& forall|h: Seq<u8>| #[trigger]
        reading::chunk_at(m.chunks, h) is Some ==> reading::chunk_at(t.chunks, h)
            == reading::chunk_at(m.chunks, h)
}

/// The store after a content was stored in it.
pub open spec fn stored(m: StoreModel, bytes: Seq<u8>) -> StoreModel {
    StoreModel {
        chunks: store::with_chunks(m.chunks, recording::chunk_rows(chunking::pieces(bytes))),
        ..m
    }
}

/// Law: recording a version alters no version row and no chunk.
pub proof fn recording_keeps_rows(m: StoreModel, r: RecordModel, t: StoreModel, id: i64)
    requires
        store::recorded(m, r) == Ok::<(StoreModel, i64), Fault>((t, id)),
    ensures
        keeps(m, t),
{
    let rows = recording::chunk_rows(recording::record_pieces(r));
    queries::find_identity_spec(m.versions, recording::row_of(r), 0);
    assert forall|h: Seq<u8>| #[trigger] reading::chunk_at(m.chunks, h) is Some implies
        reading::chunk_at(t.chunks, h) == reading::chunk_at(m.chunks, h) by {
        found_after_adding(m.chunks, rows, h);
    }
}

/// Law: recording a batch alters no version row and no chunk.
pub proof fn recording_a_batch_keeps_rows(
    m: StoreModel,
    rs: Seq<RecordModel>,
    t: StoreModel,
    ids: Seq<i64>,
)
    requires
        store::all_recorded(m, rs) == Ok::<(StoreModel, Seq<i64>), Fault>((t, ids)),
    ensures
        keeps(m, t),
    decreases rs.len(),
{
    if rs.len() > 0 {
        let before = store::all_recorded(m, rs.drop_last())->Ok_0;
        let u = before.0;
        recording_a_batch_keeps_rows(m, rs.drop_last(), u, before.1);
        let id = store::recorded(u, rs.last())->Ok_0.1;
        recording_keeps_rows(u, rs.last(), t, id);
        keeping_is_transitive(m, u, t);
    }
}

/// Law: storing a content alters no version row and no chunk.
pub proof fn storing_keeps_rows(m: StoreModel, bytes: Seq<u8>)
    ensures
        keeps(m, stored(m, bytes)),
{
    let rows = recording::chunk_rows(chunking::pieces(bytes));
    assert forall|h: Seq<u8>| #[trigger] reading::chunk_at(m.chunks, h) is Some implies
        reading::chunk_at(stored(m, bytes).chunks, h) == reading::chunk_at(m.chunks, h) by {
        found_after_adding(m.chunks, rows, h);
    }
}

/// A version that was found is found in its place when versions are appended.
proof fn version_is_still_found(m: StoreModel, t: StoreModel, id: i64, i: int)
    requires
        keeps(m, t),
        0 <= i <= m.versions.len(),
        queries::find_version(m.versions, id, i) < m.versions.len(),
    ensures
        queries::find_version(t.versions, id, i) == queries::find_version(m.versions, id, i),
    decreases m.versions.len() - i,
{
    if i < m.versions.len() {
        assert(t.versions[i] == m.versions[i]);
        if m.versions[i].id != id {
            version_is_still_found(m, t, id, i + 1);
        }
    }
}

/// What was put together of chunks is put together of more chunks.
proof fn still_assembled(id: i64, ks: Seq<Seq<u8>>, m: StoreModel, t: StoreModel)
    requires
        keeps(m, t),
        reading::assembled(id, ks, m.chunks) is Ok,
    ensures
        reading::assembled(id, ks, t.chunks) == reading::assembled(id, ks, m.chunks),
    decreases ks.len(),
{
    if ks.len() > 0 {
        still_assembled(id, ks.drop_last(), m, t);
        assert(reading::plain_of(id, ks.last(), m.chunks) is Ok);
        assert(reading::chunk_at(m.chunks, ks.last()) is Some);
    }
}

/// Law: content that can be read from a store can be read, and is the same, from
/// every store that keeps its rows; and a tombstone still has none.
pub proof fn kept_content_is_read_back(m: StoreModel, t: StoreModel, id: i64)
    requires
        keeps(m, t),
    ensures
        store::content(m, id) is Ok ==> store::content(t, id) == store::content(m, id),
        store::content(m, id) == Err::<Seq<u8>, Fault>(Fault::NotPresent(id)) ==> store::content(
            t,
            id,
        ) == store::content(m, id),
{
    let at = queries::find_version(m.versions, id, 0);
    queries::find_version_spec(m.versions, id, 0);
    if at < m.versions.len() {
        version_is_still_found(m, t, id, 0);
        let v = m.versions[at];
        assert(t.versions[at] == v);
        if store::content(m, id) is Ok {
            still_assembled(v.id, reading::keys(v.manifest->Some_0), m, t);
        } else if store::content(m, id) == Err::<Seq<u8>, Fault>(Fault::NotPresent(id)) {
            only_tombstones_are_not_present(v, m.chunks);
        }
    }
}

/// Reading a version says that it is not present only where it is a tombstone.
proof fn only_tombstones_are_not_present(v: VersionModel, chunks: Seq<ChunkModel>)
    requires
        reading::content_of(v, chunks) is Err,
        reading::content_of(v, chunks)->Err_0 is NotPresent,
    ensures
        v.state == 0,
{
    if v.state != 0 && v.content_hash is Some && v.manifest is Some {
        assembling_finds_chunks(v.id, reading::keys(v.manifest->Some_0), chunks);
    }
}

proof fn assembling_finds_chunks(id: i64, ks: Seq<Seq<u8>>, chunks: Seq<ChunkModel>)
    ensures
        reading::assembled(id, ks, chunks) is Err ==> !(reading::assembled(
            id,
            ks,
            chunks,
        )->Err_0 is NotPresent),
    decreases ks.len(),
{
    if ks.len() > 0 {
        assembling_finds_chunks(id, ks.drop_last(), chunks);
    }
}

/// Law: content that can be read can still be read after another version was
/// recorded.
pub proof fn recorded_content_stays(
    m: StoreModel,
    r: RecordModel,
    t: StoreModel,
    id: i64,
    earlier: i64,
    b: Seq<u8>,
)
    requires
        store::recorded(m, r) == Ok::<(StoreModel, i64), Fault>((t, id)),
        store::content(m, earlier) == Ok::<Seq<u8>, Fault>(b),
    ensures
        store::content(t, earlier) == Ok::<Seq<u8>, Fault>(b),
{
    recording_keeps_rows(m, r, t, id);
    kept_content_is_read_back(m, t, earlier);
}

/// Law: content that can be read can still be read after a batch was recorded.
pub proof fn recorded_content_survives_a_batch(
    m: StoreModel,
    rs: Seq<RecordModel>,
    t: StoreModel,
    ids: Seq<i64>,
    earlier: i64,
    b: Seq<u8>,
)
    requires
        store::all_recorded(m, rs) == Ok::<(StoreModel, Seq<i64>), Fault>((t, ids)),
        store::content(m, earlier) == Ok::<Seq<u8>, Fault>(b),
    ensures
        store::content(t, earlier) == Ok::<Seq<u8>, Fault>(b),
{
    recording_a_batch_keeps_rows(m, rs, t, ids);
    kept_content_is_read_back(m, t, earlier);
}

/// Law: content that can be read can still be read after a content was stored.
pub proof fn recorded_content_survives_storing(
    m: StoreModel,
    bytes: Seq<u8>,
    earlier: i64,
    b: Seq<u8>,
)
    requires
        store::content(m, earlier) == Ok::<Seq<u8>, Fault>(b),
    ensures
        store::content(stored(m, bytes), earlier) == Ok::<Seq<u8>, Fault>(b),
{
    storing_keeps_rows(m, bytes);
    kept_content_is_read_back(m, stored(m, bytes), earlier);
}

/// Something that is done to a store.
pub ghost enum StoreOp {
    /// A version is recorded.
    Record(RecordModel),
    /// A batch of versions is recorded.
    Batch(Seq<RecordModel>),
    /// A content is stored.
    Store(Seq<u8>),
    /// A conflict between two versions is recorded.
    Conflict { path: Seq<char>, winner: i64, loser: i64, wall_ms: i64 },
    /// The flag of a conflict is turned.
    Flag { id: i64, from: i64, to: i64 },
}

/// The store after something was done to it. What fails leaves it as it was.
pub open spec fn done(m: StoreModel, op: StoreOp) -> StoreModel {
    match op {
        StoreOp::Record(r) => match store::recorded(m, r) {
            Ok((t, _)) => t,
            Err(_) => m,
        },
        StoreOp::Batch(rs) => match store::all_recorded(m, rs) {
            Ok((t, _)) => t,
            Err(_) => m,
        },
        StoreOp::Store(bytes) => match recording::pack_fault(chunking::pieces(bytes)) {
            None => stored(m, bytes),
            Some(_) => m,
        },
        StoreOp::Conflict { path, winner, loser, wall_ms } => if store::has_version(
            m.versions,
            winner,
        ) && store::has_version(m.versions, loser) {
            let id = (m.last_conflict + 1) as i64;
            StoreModel {
                conflicts: m.conflicts.push(
                    ConflictModel { id, path, winner, loser, wall_ms, resolved: 0 },
                ),
                last_conflict: id,
                ..m
            }
        } else {
            m
        },
        StoreOp::Flag { id, from, to } => store::flag_turned(m, id, from, to).0,
    }
}

/// The store after these things were done to it, one after the other.
pub open spec fn all_done(m: StoreModel, ops: Seq<StoreOp>) -> StoreModel
    decreases ops.len(),
{
    if ops.len() == 0 {
        m
    } else {
        done(all_done(m, ops.drop_last()), ops.last())
    }
}

proof fn doing_keeps_rows(m: StoreModel, op: StoreOp)
    ensures
        keeps(m, done(m, op)),
{
    match op {
        StoreOp::Record(r) => match store::recorded(m, r) {
            Ok((t, id)) => {
                recording_keeps_rows(m, r, t, id);
            },
            Err(_) => {},
        },
        StoreOp::Batch(rs) => match store::all_recorded(m, rs) {
            Ok((t, ids)) => {
                recording_a_batch_keeps_rows(m, rs, t, ids);
            },
            Err(_) => {},
        },
        StoreOp::Store(bytes) => {
            storing_keeps_rows(m, bytes);
        },
        StoreOp::Conflict { .. } => {},
        StoreOp::Flag { .. } => {},
    }
}

/// Law: nothing that is done to a store takes away content that can be read: it
/// can be read, and is the same, whatever is recorded, stored or resolved later.
pub proof fn content_stays_for_good(m: StoreModel, ops: Seq<StoreOp>, id: i64, b: Seq<u8>)
    requires
        store::content(m, id) == Ok::<Seq<u8>, Fault>(b),
    ensures
        store::content(all_done(m, ops), id) == Ok::<Seq<u8>, Fault>(b),
    decreases ops.len(),
{
    if ops.len() > 0 {
        let before = all_done(m, ops.drop_last());
        content_stays_for_good(m, ops.drop_last(), id, b);
        doing_keeps_rows(before, ops.last());
        kept_content_is_read_back(before, done(before, ops.last()), id);
    }
}

/// Law: the content of a version that was recorded is read back byte for byte at
/// any later time, whatever was done to the store since.
///
/// The chunks that were there under the keys of the content are sound, and no piece of
/// the content shares its digest with other bytes. Damage elsewhere does not matter.
pub proof fn recorded_content_is_read_back_at_any_time(
    m: StoreModel,
    r: RecordModel,
    t: StoreModel,
    id: i64,
    ops: Seq<StoreOp>,
)
    requires
        store::store_ok(m),
        m.last_version < i64::MAX,
        r.state is Present,
        store::recorded(m, r) == Ok::<(StoreModel, i64), Fault>((t, id)),
        is_new(m, r),
        recording::storable(r.bytes->Some_0),
        sound_under(m.chunks, chunking::pieces(r.bytes->Some_0)),
        no_clash(m.chunks, chunking::pieces(r.bytes->Some_0)),
    ensures
        store::content(all_done(t, ops), id) == Ok::<Seq<u8>, Fault>(r.bytes->Some_0),
{
    recorded_content_is_read_back(m, r, t, id);
    content_stays_for_good(t, ops, id, r.bytes->Some_0);
}

// ---- a healthy store stays healthy -----------------------------------------
/// The check finds nothing, where the database's own check is content.
pub open spec fn healthy(m: StoreModel) -> bool {
    integrity::report_of("ok"@, m.versions, m.chunks).ok
}

/// Where the chunks raise no issue they are sound, and the other way round.
proof fn no_issue_means_sound(cs: Seq<ChunkModel>)
    ensures
        (integrity::chunks_issues(cs).len() == 0) == sound_chunks(cs),
    decreases cs.len(),
{
    if cs.len() > 0 {
        let p = cs.drop_last();
        no_issue_means_sound(p);
        if sound_chunks(p) && sound_chunk(cs.last()) {
            assert forall|i: int| 0 <= i < cs.len() implies sound_chunk(#[trigger] cs[i]) by {
                if i < p.len() {
                    assert(sound_chunk(p[i]));
                }
            }
        }
        if sound_chunks(cs) {
            assert(sound_chunk(cs[cs.len() - 1]));
            assert forall|i: int| 0 <= i < p.len() implies sound_chunk(#[trigger] p[i]) by {
                assert(sound_chunk(cs[i]));
            }
        }
    }
}

/// Chunks that are added raise no issue with a version that had none.
proof fn version_stays_whole(v: VersionModel, cs: Seq<ChunkModel>, rows: Seq<ChunkModel>)
    requires
        integrity::version_issues(v, cs).len() == 0,
    ensures
        integrity::version_issues(v, store::with_chunks(cs, rows)).len() == 0,
{
    let ks = reading::keys(v.manifest->Some_0);
    keys_stay_whole(v.id, ks, cs, rows);
}

proof fn keys_stay_whole(id: i64, ks: Seq<Seq<u8>>, cs: Seq<ChunkModel>, rows: Seq<ChunkModel>)
    requires
        integrity::missing_chunks(id, ks, cs).len() == 0,
    ensures
        integrity::missing_chunks(id, ks, store::with_chunks(cs, rows)).len() == 0,
        integrity::summed(ks, store::with_chunks(cs, rows)) == integrity::summed(ks, cs),
    decreases ks.len(),
{
    if ks.len() > 0 {
        keys_stay_whole(id, ks.drop_last(), cs, rows);
        found_after_adding(cs, rows, ks.last());
    }
}

proof fn versions_stay_whole(vs: Seq<VersionModel>, cs: Seq<ChunkModel>, rows: Seq<ChunkModel>)
    requires
        integrity::versions_issues(vs, cs).len() == 0,
    ensures
        integrity::versions_issues(vs, store::with_chunks(cs, rows)).len() == 0,
    decreases vs.len(),
{
    if vs.len() > 0 {
        versions_stay_whole(vs.drop_last(), cs, rows);
        if vs.last().state == 1 {
            version_stays_whole(vs.last(), cs, rows);
        }
    }
}

/// Law: an empty store is healthy, and a store that is healthy is still healthy
/// after content was stored in it.
pub proof fn storing_keeps_a_store_healthy(m: StoreModel, bytes: Seq<u8>)
    requires
        healthy(m),
        recording::storable(bytes),
    ensures
        healthy(
            StoreModel {
                chunks: store::with_chunks(
                    m.chunks,
                    recording::chunk_rows(chunking::pieces(bytes)),
                ),
                ..m
            },
        ),
        healthy(
            StoreModel {
                chunks: seq![],
                versions: seq![],
                conflicts: seq![],
                last_version: 0,
                last_conflict: 0,
            },
        ),
{
    let rows = recording::chunk_rows(chunking::pieces(bytes));
    no_issue_means_sound(m.chunks);
    storing_keeps_chunks_sound(m.chunks, bytes);
    no_issue_means_sound(store::with_chunks(m.chunks, rows));
    versions_stay_whole(m.versions, m.chunks, rows);
}

/// Law: a store that is healthy is still healthy after a version was recorded.
///
/// No piece of the content shares its digest with other bytes.
pub proof fn recording_keeps_a_store_healthy(m: StoreModel, r: RecordModel, t: StoreModel, id: i64)
    requires
        healthy(m),
        store::recorded(m, r) == Ok::<(StoreModel, i64), Fault>((t, id)),
        r.state is Present ==> recording::storable(r.bytes->Some_0) && no_clash(
            m.chunks,
            chunking::pieces(r.bytes->Some_0),
        ),
    ensures
        healthy(t),
{
    let ps = recording::record_pieces(r);
    let rows = recording::chunk_rows(ps);
    no_issue_means_sound(m.chunks);
    if r.state is Present {
        let b = r.bytes->Some_0;
        storing_keeps_chunks_sound(m.chunks, b);
        content_is_held(m.chunks, b);
        chunking::pieces_rejoin(b);
        manifest_lists_keys(ps);
        history::numbers_round_trip(b.len() as u64, Origin::Local);
    } else {
        assert(rows =~= Seq::<ChunkModel>::empty());
    }
    no_issue_means_sound(t.chunks);
    versions_stay_whole(m.versions, m.chunks, rows);
    if is_new(m, r) {
        assert(t.versions.drop_last() =~= m.versions);
        let row = t.versions.last();
        if r.state is Present {
            pieces_assemble(row.id, ps, t.chunks);
            assert(integrity::version_issues(row, t.chunks) =~= Seq::<Seq<char>>::empty());
        }
    } else {
        queries::find_identity_spec(m.versions, recording::row_of(r), 0);
    }
}

// ---- recording is idempotent -----------------------------------------------
/// Finding in rows with one appended.
proof fn find_with_last(vs: Seq<VersionModel>, last: VersionModel, v: VersionModel, i: int)
    requires
        0 <= i <= vs.len(),
        queries::find_identity(vs, v, i) == vs.len(),
        queries::same_identity(last, v),
    ensures
        queries::find_identity(vs.push(last), v, i) == vs.len(),
    decreases vs.len() - i,
{
    if i < vs.len() {
        queries::find_identity_spec(vs, v, i);
        assert(vs.push(last)[i] == vs[i]);
        find_with_last(vs, last, v, i + 1);
    }
}

/// Law: recording a version again changes nothing and gives the same identifier.
pub proof fn recording_again_changes_nothing(m: StoreModel, r: RecordModel, t: StoreModel, id: i64)
    requires
        store::recorded(m, r) == Ok::<(StoreModel, i64), Fault>((t, id)),
    ensures
        store::recorded(t, r) == Ok::<(StoreModel, i64), Fault>((t, id)),
{
    kept_recording_changes_nothing(m, r, t, id, t);
}

/// A version that was recorded is recorded again without effect in every store that
/// keeps its rows.
proof fn kept_recording_changes_nothing(
    m: StoreModel,
    r: RecordModel,
    t: StoreModel,
    id: i64,
    u: StoreModel,
)
    requires
        store::recorded(m, r) == Ok::<(StoreModel, i64), Fault>((t, id)),
        keeps(t, u),
    ensures
        store::recorded(u, r) == Ok::<(StoreModel, i64), Fault>((u, id)),
{
    let ps = recording::record_pieces(r);
    let rows = recording::chunk_rows(ps);
    let row = recording::row_of(r);
    assert forall|i: int| 0 <= i < ps.len() implies reading::chunk_at(
        u.chunks,
        recording::chunk_row(#[trigger] ps[i]).hash,
    ) is Some by {
        assert(rows[i] == recording::chunk_row(ps[i]));
        added_is_found(m.chunks, rows, i);
        assert(reading::chunk_at(t.chunks, rows[i].hash) is Some);
    }
    nothing_to_add(u.chunks, ps);
    queries::find_identity_spec(m.versions, row, 0);
    if is_new(m, r) {
        find_with_last(m.versions, t.versions.last(), row, 0);
        assert(t.versions == m.versions.push(t.versions.last()));
    }
    let at = queries::find_identity(t.versions, row, 0);
    assert(at < t.versions.len() && t.versions[at].id == id);
    identity_is_still_found(t, u, row, row, 0);
    assert(u.versions[at] == t.versions[at]);
    assert(store::inserted(u, rows, row).0 =~= u);
}

/// What keeps the rows of a store that keeps the rows of another keeps those too.
proof fn keeping_is_transitive(m: StoreModel, t: StoreModel, u: StoreModel)
    requires
        keeps(m, t),
        keeps(t, u),
    ensures
        keeps(m, u),
{
    assert forall|i: int| 0 <= i < m.versions.len() implies #[trigger] u.versions[i]
        == m.versions[i] by {
        assert(t.versions[i] == m.versions[i]);
    }
    assert forall|h: Seq<u8>| #[trigger] reading::chunk_at(m.chunks, h) is Some implies
        reading::chunk_at(u.chunks, h) == reading::chunk_at(m.chunks, h) by {
        assert(reading::chunk_at(t.chunks, h) is Some);
    }
}

proof fn kept_batch_changes_nothing(
    m: StoreModel,
    rs: Seq<RecordModel>,
    t: StoreModel,
    ids: Seq<i64>,
    u: StoreModel,
)
    requires
        store::all_recorded(m, rs) == Ok::<(StoreModel, Seq<i64>), Fault>((t, ids)),
        keeps(t, u),
    ensures
        store::all_recorded(u, rs) == Ok::<(StoreModel, Seq<i64>), Fault>((u, ids)),
    decreases rs.len(),
{
    if rs.len() > 0 {
        let (v, before) = store::all_recorded(m, rs.drop_last())->Ok_0;
        let id = store::recorded(v, rs.last())->Ok_0.1;
        recording_keeps_rows(v, rs.last(), t, id);
        keeping_is_transitive(v, t, u);
        kept_batch_changes_nothing(m, rs.drop_last(), v, before, u);
        kept_recording_changes_nothing(v, rs.last(), t, id, u);
    }
}

/// Law: recording a batch again, at once or after whatever else was done, changes
/// nothing and gives the same identifiers: no row is added.
pub proof fn recording_a_batch_again_changes_nothing(
    m: StoreModel,
    rs: Seq<RecordModel>,
    t: StoreModel,
    ids: Seq<i64>,
    ops: Seq<StoreOp>,
)
    requires
        store::all_recorded(m, rs) == Ok::<(StoreModel, Seq<i64>), Fault>((t, ids)),
    ensures
        store::all_recorded(t, rs) == Ok::<(StoreModel, Seq<i64>), Fault>((t, ids)),
        store::all_recorded(all_done(t, ops), rs) == Ok::<(StoreModel, Seq<i64>), Fault>(
            (all_done(t, ops), ids),
        ),
{
    all_keeps_rows(t, ops);
    kept_batch_changes_nothing(m, rs, t, ids, t);
    kept_batch_changes_nothing(m, rs, t, ids, all_done(t, ops));
}

/// Law: recording never gives one version a second row.
pub proof fn recording_keeps_versions_distinct(m: StoreModel, r: RecordModel, t: StoreModel, id: i64)
    requires
        migration::distinct_versions(m.versions),
        store::recorded(m, r) == Ok::<(StoreModel, i64), Fault>((t, id)),
    ensures
        migration::distinct_versions(t.versions),
        t.versions.len() == m.versions.len() + (if is_new(m, r) {
            1int
        } else {
            0int
        }),
{
    let row = recording::row_of(r);
    queries::find_identity_spec(m.versions, row, 0);
    if is_new(m, r) {
        assert forall|i: int, j: int| 0 <= i < j < t.versions.len() implies !queries::same_identity(
            #[trigger] t.versions[i],
            #[trigger] t.versions[j],
        ) by {
            assert(t.versions[i] == m.versions[i]);
            if j < m.versions.len() {
                assert(t.versions[j] == m.versions[j]);
            }
        }
    }
}

/// Two records are of one version: the same path, both present or both gone, and
/// the same clock.
pub open spec fn same_version(r: RecordModel, s: RecordModel) -> bool {
    r.path == s.path && (r.state is Present <==> s.state is Present) && r.clock == s.clock
}

/// Law: recording a version that has a row gives the identifier of the row. No
/// version row is added or altered, whatever replica, origin, time and content
/// come with the record.
pub proof fn a_known_version_keeps_its_row(m: StoreModel, s: RecordModel, i: int)
    requires
        migration::distinct_versions(m.versions),
        0 <= i < m.versions.len(),
        queries::same_identity(m.versions[i], recording::row_of(s)),
        recording::record_fault(s) is None,
    ensures
        store::recorded(m, s) == Ok::<(StoreModel, i64), Fault>(
            (
                StoreModel {
                    chunks: store::with_chunks(
                        m.chunks,
                        recording::chunk_rows(recording::record_pieces(s)),
                    ),
                    ..m
                },
                m.versions[i].id,
            ),
        ),
{
    let row = recording::row_of(s);
    let at = queries::find_identity(m.versions, row, 0);
    queries::find_identity_spec(m.versions, row, 0);
    assert(at <= i);
    if at < i {
        assert(queries::same_identity(m.versions[at], m.versions[i]));
    }
}

/// Law: once a version is recorded, recording it again any number of times, among
/// whatever else is done, gives its first identifier and adds no row for it.
pub proof fn one_version_has_one_row(
    m: StoreModel,
    r: RecordModel,
    t: StoreModel,
    id: i64,
    ops: Seq<StoreOp>,
    s: RecordModel,
)
    requires
        store::recorded(m, r) == Ok::<(StoreModel, i64), Fault>((t, id)),
        same_version(r, s),
        recording::record_fault(s) is None,
    ensures
        ({
            let u = all_done(t, ops);
            store::recorded(u, s) == Ok::<(StoreModel, i64), Fault>(
                (
                    StoreModel {
                        chunks: store::with_chunks(
                            u.chunks,
                            recording::chunk_rows(recording::record_pieces(s)),
                        ),
                        ..u
                    },
                    id,
                ),
            )
        }),
{
    let row = recording::row_of(r);
    queries::find_identity_spec(m.versions, row, 0);
    if is_new(m, r) {
        find_with_last(m.versions, t.versions.last(), row, 0);
        assert(t.versions == m.versions.push(t.versions.last()));
    }
    let at = queries::find_identity(t.versions, row, 0);
    assert(at < t.versions.len() && t.versions[at].id == id);
    all_keeps_rows(t, ops);
    identity_is_still_found(t, all_done(t, ops), row, recording::row_of(s), 0);
    assert(all_done(t, ops).versions[at] == t.versions[at]);
}

proof fn all_keeps_rows(m: StoreModel, ops: Seq<StoreOp>)
    ensures
        keeps(m, all_done(m, ops)),
    decreases ops.len(),
{
    if ops.len() > 0 {
        let u = all_done(m, ops.drop_last());
        let t = done(u, ops.last());
        all_keeps_rows(m, ops.drop_last());
        doing_keeps_rows(u, ops.last());
        keeping_is_transitive(m, u, t);
    }
}

proof fn identity_is_still_found(
    m: StoreModel,
    t: StoreModel,
    v: VersionModel,
    w: VersionModel,
    i: int,
)
    requires
        keeps(m, t),
        queries::same_identity(v, w),
        0 <= i <= m.versions.len(),
        queries::find_identity(m.versions, v, i) < m.versions.len(),
    ensures
        queries::find_identity(t.versions, w, i) == queries::find_identity(m.versions, v, i),
    decreases m.versions.len() - i,
{
    if i < m.versions.len() {
        assert(t.versions[i] == m.versions[i]);
        if !queries::same_identity(m.versions[i], v) {
            identity_is_still_found(m, t, v, w, i + 1);
        }
    }
}

/// Law: a batch is exactly its parts recorded one after the other.
pub proof fn a_batch_is_its_parts(m: StoreModel, a: Seq<RecordModel>, b: Seq<RecordModel>)
    ensures
        store::all_recorded(m, a + b) == (match store::all_recorded(m, a) {
            Err(e) => Err(e),
            Ok((t, ids)) => match store::all_recorded(t, b) {
                Err(e) => Err(e),
                Ok((u, more)) => Ok::<(StoreModel, Seq<i64>), Fault>((u, ids + more)),
            },
        }),
    decreases b.len(),
{
    if b.len() == 0 {
        assert(a + b =~= a);
        match store::all_recorded(m, a) {
            Ok((t, ids)) => {
                assert(ids + Seq::<i64>::empty() =~= ids);
            },
            Err(_) => {},
        }
    } else {
        a_batch_is_its_parts(m, a, b.drop_last());
        assert((a + b).drop_last() =~= a + b.drop_last());
        assert((a + b).last() == b.last());
        match store::all_recorded(m, a) {
            Ok((t, ids)) => match store::all_recorded(t, b.drop_last()) {
                Ok((u, more)) => match store::recorded(u, b.last()) {
                    Ok((w, id)) => {
                        assert((ids + more).push(id) =~= ids + more.push(id));
                    },
                    Err(_) => {},
                },
                Err(_) => {},
            },
            Err(_) => {},
        }
    }
}

/// Law: a batch of one is a single recording.
pub proof fn a_batch_of_one_is_a_recording(m: StoreModel, r: RecordModel)
    ensures
        store::all_recorded(m, seq![r]) == (match store::recorded(m, r) {
            Err(e) => Err(e),
            Ok((t, id)) => Ok::<(StoreModel, Seq<i64>), Fault>((t, seq![id])),
        }),
{
    assert(seq![r].drop_last() =~= Seq::<RecordModel>::empty());
    assert(store::all_recorded(m, Seq::<RecordModel>::empty()) == Ok::<
        (StoreModel, Seq<i64>),
        Fault,
    >((m, seq![])));
    match store::recorded(m, r) {
        Ok((t, id)) => {
            assert(Seq::<i64>::empty().push(id) =~= seq![id]);
        },
        Err(_) => {},
    }
}

// ---- the log ---------------------------------------------------------------
/// Law: a log lists the versions of its path and no others, by descending
/// identifier, whatever their wall-clock times are.
pub proof fn a_log_is_newest_first(vs: Seq<VersionModel>, last: i64, path: Seq<char>)
    requires
        store::versions_ok(vs, last),
        queries::log_of(vs, path) is Ok,
    ensures
        ({
            let l = queries::log_of(vs, path)->Ok_0;
            &&& l.len() == queries::count_of(vs, path)
            &&& forall|i: int, j: int|
                0 <= i < j < l.len() ==> (#[trigger] l[i]).id.0 > (#[trigger] l[j]).id.0
            &&& forall|i: int|
                0 <= i < l.len() ==> exists|k: int|
                    0 <= k < vs.len() && (#[trigger] vs[k]).path == path && vs[k].id == (
                    #[trigger] l[i]).id.0 && reading::meta_of(vs[k]) == Ok::<MetaModel, Fault>(l[i])
        }),
    decreases vs.len(),
{
    if vs.len() > 0 {
        let p = vs.drop_last();
        let v = vs.last();
        let n = vs.len() - 1;
        assert(store::versions_ok(p, last)) by {
            assert forall|i: int, j: int| 0 <= i < j < p.len() implies (#[trigger] p[i]).id < (
            #[trigger] p[j]).id by {
                assert(vs[i].id < vs[j].id);
            }
            assert forall|i: int| 0 <= i < p.len() implies (#[trigger] p[i]).id <= last by {
                assert(vs[i].id <= last);
            }
        }
        a_log_is_newest_first(p, last, path);
        let l = queries::log_of(vs, path)->Ok_0;
        let q = queries::log_of(p, path)->Ok_0;
        let shift = if v.path == path {
            1int
        } else {
            0int
        };
        assert forall|i: int| shift <= i < l.len() implies #[trigger] l[i] == q[i - shift] by {
        }
        assert forall|i: int| 0 <= i < l.len() implies exists|k: int|
            0 <= k < vs.len() && (#[trigger] vs[k]).path == path && vs[k].id == (
            #[trigger] l[i]).id.0 && reading::meta_of(vs[k]) == Ok::<MetaModel, Fault>(l[i]) by {
            if i < shift {
                assert(vs[n].path == path);
                assert(reading::meta_of(vs[n]) == Ok::<MetaModel, Fault>(l[i]));
            } else {
                assert(l[i] == q[i - shift]);
                let k = choose|k: int|
                    0 <= k < p.len() && (#[trigger] p[k]).path == path && p[k].id == q[i
                        - shift].id.0 && reading::meta_of(p[k]) == Ok::<MetaModel, Fault>(
                        q[i - shift],
                    );
                assert(vs[k] == p[k]);
            }
        }
        assert forall|i: int, j: int| 0 <= i < j < l.len() implies (#[trigger] l[i]).id.0 > (
        #[trigger] l[j]).id.0 by {
            assert(l[j] == q[j - shift]);
            if i >= shift {
                assert(l[i] == q[i - shift]);
            } else {
                let k = choose|k: int|
                    0 <= k < p.len() && (#[trigger] p[k]).path == path && p[k].id == q[j
                        - shift].id.0 && reading::meta_of(p[k]) == Ok::<MetaModel, Fault>(
                        q[j - shift],
                    );
                assert(vs[k] == p[k]);
                assert(vs[k].id < vs[n].id);
            }
        }
    }
}

/// What the log says of a version that was recorded.
pub open spec fn logged(r: RecordModel, id: i64) -> MetaModel {
    MetaModel {
        id: VersionId(id),
        state: match r.state {
            EntryState::Tombstone => EntryState::Tombstone,
            EntryState::Present(sig) => EntryState::Present(ContentSig { mtime_ms: 0, ..sig }),
        },
        content_hash: match r.state {
            EntryState::Tombstone => None,
            EntryState::Present(sig) => Some(sig.hash),
        },
        size: match r.state {
            EntryState::Tombstone => None,
            EntryState::Present(sig) => Some(sig.size),
        },
        clock: r.clock,
        replica: r.replica,
        wall_ms: r.wall_ms,
        origin: r.origin,
    }
}

/// Law: a version that was recorded heads the log of its path, with its state
/// (but for the modification time), clock, replica, time and origin as they were
/// given, and is the newest version of its path.
pub proof fn a_recorded_version_heads_the_log(m: StoreModel, r: RecordModel, t: StoreModel, id: i64)
    requires
        store::recorded(m, r) == Ok::<(StoreModel, i64), Fault>((t, id)),
        is_new(m, r),
        clock::is_clock(r.clock),
        r.clock.len() <= usize::MAX,
    ensures
        queries::log_of(t.versions, r.path) == queries::followed(
            seq![logged(r, id)],
            queries::log_of(m.versions, r.path),
        ),
        queries::latest_of(t.versions, r.path) == Some(VersionId(id)),
{
    let row = t.versions.last();
    assert(t.versions.drop_last() =~= m.versions);
    codec::version_round_trip(r.clock, Seq::<u8>::empty());
    assert(codec::version(r.clock) + Seq::<u8>::empty() =~= codec::version(r.clock));
    history::numbers_round_trip(r.replica.0, r.origin);
    history::numbers_round_trip(r.wall_ms, r.origin);
    match r.state {
        EntryState::Present(sig) => {
            codec::array_of_view(sig.hash.0);
            history::numbers_round_trip(sig.size, r.origin);
        },
        EntryState::Tombstone => {},
    }
}

/// The summary is of the version at `x`, which is the newest of its path.
pub open spec fn summarises(vs: Seq<VersionModel>, x: int, s: PathModel) -> bool {
    queries::newest_of_path(vs, x) && vs[x].path == s.path && vs[x].id == s.last_version.0
}

/// The summary is of one of the first `k` versions.
pub open spec fn summarised(vs: Seq<VersionModel>, k: int, s: PathModel) -> bool {
    exists|x: int| 0 <= x < k && #[trigger] summarises(vs, x, s)
}

/// Law: the summaries list every path at most once, each with the number of its
/// versions and its newest version.
pub proof fn paths_are_listed_once(vs: Seq<VersionModel>, k: int, n: nat)
    requires
        0 <= k <= vs.len(),
        queries::paths_of(vs, k, n) is Ok,
    ensures
        ({
            let l = queries::paths_of(vs, k, n)->Ok_0;
            &&& l.len() <= n
            &&& forall|i: int|
                0 <= i < l.len() ==> (#[trigger] l[i]).versions == queries::count_of(vs, l[i].path)
            &&& forall|i: int| 0 <= i < l.len() ==> summarised(vs, k, #[trigger] l[i])
            &&& forall|i: int, j: int|
                0 <= i < j < l.len() ==> (#[trigger] l[i]).path != (#[trigger] l[j]).path
        }),
    decreases k,
{
    if k > 0 && n > 0 {
        if !queries::newest_of_path(vs, k - 1) {
            paths_are_listed_once(vs, k - 1, n);
            let l = queries::paths_of(vs, k - 1, n)->Ok_0;
            assert forall|i: int| 0 <= i < l.len() implies summarised(vs, k, #[trigger] l[i]) by {
                let x = choose|x: int| 0 <= x < k - 1 && summarises(vs, x, l[i]);
                assert(summarises(vs, x, l[i]));
            }
        } else {
            paths_are_listed_once(vs, k - 1, (n - 1) as nat);
            let l = queries::paths_of(vs, k, n)->Ok_0;
            let q = queries::paths_of(vs, k - 1, (n - 1) as nat)->Ok_0;
            assert forall|i: int| 1 <= i < l.len() implies #[trigger] l[i] == q[i - 1] by {
            }
            assert(l[0].path == vs[k - 1].path);
            assert forall|i: int| 0 <= i < l.len() implies (#[trigger] l[i]).versions
                == queries::count_of(vs, l[i].path) by {
                if i > 0 {
                    assert(l[i] == q[i - 1]);
                }
            }
            assert forall|i: int| 0 <= i < l.len() implies summarised(vs, k, #[trigger] l[i]) by {
                if i == 0 {
                    assert(summarises(vs, k - 1, l[0]));
                } else {
                    assert(l[i] == q[i - 1]);
                    let item = q[i - 1];
                    let x = choose|x: int| 0 <= x < k - 1 && summarises(vs, x, item);
                    assert(summarises(vs, x, l[i]));
                }
            }
            assert forall|i: int, j: int| 0 <= i < j < l.len() implies (#[trigger] l[i]).path != (
            #[trigger] l[j]).path by {
                assert(l[j] == q[j - 1]);
                if i > 0 {
                    assert(l[i] == q[i - 1]);
                } else {
                    let item = q[j - 1];
                    let x = choose|x: int| 0 <= x < k - 1 && summarises(vs, x, item);
                    assert(vs[k - 1].path != vs[x].path);
                }
            }
        }
    }
}

// ---- conflicts -------------------------------------------------------------
/// Law: marking a conflict resolved and marking it unresolved undo each other,
/// and doing either twice changes nothing more.
pub proof fn resolving_is_undone(m: StoreModel, id: i64, from: i64, to: i64)
    requires
        from != to,
        store::flag_turned(m, id, from, to).1,
    ensures
        ({
            let t = store::flag_turned(m, id, from, to).0;
            &&& store::flag_turned(t, id, to, from) == (m, true)
            &&& store::flag_turned(t, id, from, to) == (t, false)
        }),
{
    let t = store::flag_turned(m, id, from, to).0;
    let at = queries::find_conflict(m.conflicts, id, 0);
    queries::find_conflict_spec(m.conflicts, id, 0);
    queries::find_conflict_spec(t.conflicts, id, 0);
    let again = queries::find_conflict(t.conflicts, id, 0);
    assert(again == at) by {
        if again < at {
            assert(t.conflicts[again] == m.conflicts[again]);
        }
        if at < again {
            assert(t.conflicts[at].id == id);
        }
    }
    let back = store::flag_turned(t, id, to, from).0;
    assert(back.conflicts =~= m.conflicts);
}

} // verus!
