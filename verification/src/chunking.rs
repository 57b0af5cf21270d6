//! Content-defined chunks: where a file is cut, and how a chunk is packed.

use crate::bytes;
use crate::digest;
use crate::index::ContentHash;
use std::ops::Range;
use vstd::prelude::*;

verus! {

/// Minimum chunk size: 16 KiB.
pub const CDC_MIN: u32 = 16384;

/// Average (target) chunk size: 64 KiB.
pub const CDC_AVG: u32 = 65536;

/// Maximum chunk size: 256 KiB.
pub const CDC_MAX: u32 = 262144;

/// Compression level of stored chunks.
pub const ZSTD_LEVEL: i32 = 3;

// ---- where content is cut --------------------------------------------------
/// The cuts (offset, length) that FastCDC makes in `bytes`.
pub uninterp spec fn cdc_cuts(bytes: Seq<u8>, min: u32, avg: u32, max: u32) -> Seq<(usize, usize)>;

/// The number of bytes that the cuts cover.
pub open spec fn covered(cuts: Seq<(usize, usize)>) -> int
    decreases cuts.len(),
{
    if cuts.len() == 0 {
        0
    } else {
        covered(cuts.drop_last()) + cuts.last().1
    }
}

/// The cut is not empty, and starts where the cuts before it end.
pub open spec fn placed(cuts: Seq<(usize, usize)>, i: int) -> bool {
    cuts[i].0 == covered(cuts.take(i)) && cuts[i].1 > 0
}

/// The cuts follow one another without gap or overlap, none is empty, and
/// together they cover `n` bytes.
pub open spec fn tiles(cuts: Seq<(usize, usize)>, n: nat) -> bool {
    &&& covered(cuts) == n
    &&& forall|i: int| 0 <= i < cuts.len() ==> #[trigger] placed(cuts, i)
}

/// Every cut is at most `max` long, and every cut but the last at least `min`.
pub open spec fn sized(cuts: Seq<(usize, usize)>, min: u32, max: u32) -> bool {
    &&& forall|i: int| 0 <= i < cuts.len() ==> (#[trigger] cuts[i]).1 <= max
    &&& forall|i: int| 0 <= i < cuts.len() - 1 ==> (#[trigger] cuts[i]).1 >= min
}

/// `fastcdc::v2020::FastCDC::new` and its iterator: the chunks of `bytes` in
/// order. The iterator starts at the first byte, cuts off a chunk that is not
/// empty, goes on right behind it, and ends where no byte is left. A chunk is at
/// most `max` long; one that is not the last is at least `min` long, where `min`
/// is even. The constructor panics on sizes outside the bounds required here.
#[verifier::external_body]
fn cut_points(bytes: &[u8], min: u32, avg: u32, max: u32) -> (cuts: Vec<(usize, usize)>)
    requires
        64 <= min <= 1048576,
        min % 2 == 0,
        256 <= avg <= 4194304,
        1024 <= max <= 16777216,
        min <= avg <= max,
    ensures
        cuts@ == cdc_cuts(bytes@, min, avg, max),
        tiles(cuts@, bytes@.len()),
        sized(cuts@, min, max),
{
    fastcdc::v2020::FastCDC::new(bytes, min, avg, max).map(|c| (c.offset, c.length)).collect()
}

/// The cuts of the store in `bytes`.
pub open spec fn cuts(bytes: Seq<u8>) -> Seq<(usize, usize)> {
    cdc_cuts(bytes, CDC_MIN, CDC_AVG, CDC_MAX)
}

/// The piece of `bytes` at a cut.
pub open spec fn piece(bytes: Seq<u8>, cut: (usize, usize)) -> Seq<u8> {
    bytes.subrange(cut.0 as int, cut.0 + cut.1)
}

/// The pieces that `bytes` is cut into.
pub open spec fn pieces(bytes: Seq<u8>) -> Seq<Seq<u8>> {
    Seq::new(cuts(bytes).len(), |i: int| piece(bytes, cuts(bytes)[i]))
}

/// The texts one after the other.
pub open spec fn joined(parts: Seq<Seq<u8>>) -> Seq<u8>
    decreases parts.len(),
{
    if parts.len() == 0 {
        seq![]
    } else {
        joined(parts.drop_last()) + parts.last()
    }
}

/// The cuts of `bytes` tile it and keep the store's size bounds. Every call that
/// cuts `bytes` ensures it.
pub open spec fn well_cut(bytes: Seq<u8>) -> bool {
    tiles(cuts(bytes), bytes.len()) && sized(cuts(bytes), CDC_MIN, CDC_MAX)
}

/// Covering grows with the cuts.
pub proof fn covered_monotone(c: Seq<(usize, usize)>, i: int, j: int)
    requires
        0 <= i <= j <= c.len(),
    ensures
        0 <= covered(c.take(i)) <= covered(c.take(j)),
    decreases j,
{
    if j > 0 {
        assert(c.take(j).drop_last() =~= c.take(j - 1));
        if i < j {
            covered_monotone(c, i, j - 1);
        } else {
            covered_monotone(c, i - 1, j - 1);
        }
    }
}

/// Every cut of a tiling lies within what is tiled.
pub proof fn cut_within(c: Seq<(usize, usize)>, n: nat, i: int)
    requires
        tiles(c, n),
        0 <= i < c.len(),
    ensures
        c[i].0 + c[i].1 <= n,
        c[i].1 > 0,
        covered(c.take(i)) == c[i].0,
        covered(c.take(i + 1)) == c[i].0 + c[i].1,
{
    assert(placed(c, i));
    assert(c.take(i + 1).drop_last() =~= c.take(i));
    covered_monotone(c, i + 1, c.len() as int);
    assert(c.take(c.len() as int) =~= c);
}

/// Law: the pieces of a content, put together again, are the content; none is
/// empty, none is longer than 256 KiB, and all but the last are at least 16 KiB.
pub proof fn pieces_rejoin(bytes: Seq<u8>)
    requires
        well_cut(bytes),
    ensures
        joined(pieces(bytes)) == bytes,
        forall|i: int|
            0 <= i < pieces(bytes).len() ==> 0 < (#[trigger] pieces(bytes)[i]).len() <= CDC_MAX,
        forall|i: int|
            0 <= i < pieces(bytes).len() - 1 ==> (#[trigger] pieces(bytes)[i]).len() >= CDC_MIN,
{
    let c = cuts(bytes);
    let ps = pieces(bytes);
    rejoin_prefix(bytes, ps.len() as int);
    assert(c.take(ps.len() as int) =~= c);
    assert(ps.take(ps.len() as int) =~= ps);
    assert(bytes.take(bytes.len() as int) =~= bytes);
    assert forall|i: int| 0 <= i < ps.len() implies 0 < (#[trigger] ps[i]).len() <= CDC_MAX by {
        cut_within(c, bytes.len(), i);
        assert(c[i].1 <= CDC_MAX);
    }
    assert forall|i: int| 0 <= i < ps.len() - 1 implies (#[trigger] ps[i]).len() >= CDC_MIN by {
        cut_within(c, bytes.len(), i);
        assert(c[i].1 >= CDC_MIN);
    }
}

proof fn rejoin_prefix(bytes: Seq<u8>, k: int)
    requires
        well_cut(bytes),
        0 <= k <= cuts(bytes).len(),
    ensures
        joined(pieces(bytes).take(k)) == bytes.take(covered(cuts(bytes).take(k))),
        0 <= covered(cuts(bytes).take(k)) <= bytes.len(),
    decreases k,
{
    let c = cuts(bytes);
    let ps = pieces(bytes);
    covered_monotone(c, k, c.len() as int);
    assert(c.take(c.len() as int) =~= c);
    if k > 0 {
        rejoin_prefix(bytes, k - 1);
        cut_within(c, bytes.len(), k - 1);
        assert(ps.take(k).drop_last() =~= ps.take(k - 1));
        assert(ps.take(k).last() == ps[k - 1]);
        assert(bytes.take(c[k - 1].0 as int) + ps[k - 1] =~= bytes.take(covered(c.take(k))));
    } else {
        assert(ps.take(0) =~= Seq::<Seq<u8>>::empty());
        assert(bytes.take(0) =~= Seq::<u8>::empty());
    }
}

/// Split `bytes` into chunks: the identity of each and its range in `bytes`.
pub fn chunk_bytes(bytes: &[u8]) -> (out: Vec<(ContentHash, Range<usize>)>)
    ensures
        well_cut(bytes@),
        out@.len() == cuts(bytes@).len(),
        forall|i: int|
            0 <= i < out@.len() ==> (#[trigger] out@[i]).0 == digest::digest(pieces(bytes@)[i])
                && out@[i].1.start == cuts(bytes@)[i].0 && out@[i].1.end == cuts(bytes@)[i].0
                + cuts(bytes@)[i].1 && out@[i].1.end <= bytes@.len(),
{
    let n: usize = bytes.len();
    let points = cut_points(bytes, CDC_MIN, CDC_AVG, CDC_MAX);
    let mut out: Vec<(ContentHash, Range<usize>)> = Vec::new();
    let mut i: usize = 0;
    while i < points.len()
        invariant
            i <= points@.len(),
            points@ == cuts(bytes@),
            n == bytes@.len(),
            tiles(points@, bytes@.len()),
            out@.len() == i,
            forall|j: int|
                0 <= j < out@.len() ==> (#[trigger] out@[j]).0 == digest::digest(pieces(bytes@)[j])
                    && out@[j].1.start == cuts(bytes@)[j].0 && out@[j].1.end == cuts(bytes@)[j].0
                    + cuts(bytes@)[j].1 && out@[j].1.end <= bytes@.len(),
        decreases points@.len() - i,
    {
        proof {
            cut_within(points@, bytes@.len(), i as int);
        }
        let from: usize = points[i].0;
        let to: usize = from + points[i].1;
        let part = bytes::copy_bytes(bytes, from, to);
        let hash = digest::content_hash(part.as_slice());
        assert(part@ == pieces(bytes@)[i as int]);
        out.push((hash, from..to));
        i = i + 1;
    }
    out
}

// ---- how a chunk is packed -------------------------------------------------
/// What compressing `bytes` at a level gives, or the text of the error.
pub uninterp spec fn zstd_packed(bytes: Seq<u8>, level: i32) -> Result<Seq<u8>, Seq<char>>;

/// What decompressing `data` gives, or the text of the error.
pub uninterp spec fn zstd_plain(data: Seq<u8>) -> Result<Seq<u8>, Seq<char>>;

/// `zstd::encode_all` of a byte slice: one zstd frame, or the text of the error.
/// Decompressing the frame gives the bytes back.
#[verifier::external_body]
pub(crate) fn pack(bytes: &[u8], level: i32) -> (r: Result<Vec<u8>, String>)
    ensures
        match r {
            Ok(v) => zstd_packed(bytes@, level) == Ok::<Seq<u8>, Seq<char>>(v@) && zstd_plain(v@)
                == Ok::<Seq<u8>, Seq<char>>(bytes@),
            Err(e) => zstd_packed(bytes@, level) == Err::<Seq<u8>, Seq<char>>(e@),
        },
{
    zstd::encode_all(bytes, level).map_err(|e| e.to_string())
}

/// `zstd::decode_all` of a byte slice: what its frames hold, or the text of the
/// error.
#[verifier::external_body]
pub(crate) fn unpack(data: &[u8]) -> (r: Result<Vec<u8>, String>)
    ensures
        match r {
            Ok(v) => zstd_plain(data@) == Ok::<Seq<u8>, Seq<char>>(v@),
            Err(e) => zstd_plain(data@) == Err::<Seq<u8>, Seq<char>>(e@),
        },
{
    zstd::decode_all(data).map_err(|e| e.to_string())
}

} // verus!
