//! Which of several concurrent versions wins.

use crate::canonical;
use crate::index;
use crate::index::{ContentSig, EntryState, HeadModel};
use crate::order;
use crate::tree;
use vstd::prelude::*;

verus! {

/// The bytes `a` are above the bytes `b`: at the first place where they differ, the byte
/// of `a` is the larger one.
pub open spec fn above(a: Seq<u8>, b: Seq<u8>) -> bool {
    exists|j: int|
        0 <= j < a.len() && j < b.len() && #[trigger] a[j] > b[j] && forall|i: int|
            0 <= i < j ==> a[i] == b[i]
}

/// The rank of a head that is present, place by place.
proof fn rank_places(h: HeadModel, sig: ContentSig, ad: bool)
    requires
        h.state == EntryState::Present(sig),
    ensures
        ({
            let r = index::rank(h, ad);
            &&& r.len() == 35 + index::clock_bytes(h.version).len()
            &&& r[0] == 1
            &&& r[1] == if ad {
                sig.mtime_ms as int
            } else {
                0
            }
            &&& forall|j: int| 0 <= j < 32 ==> r[2 + j] == (#[trigger] sig.hash.0@[j]) as int
            &&& r[34] == if sig.exec_bit {
                1int
            } else {
                0
            }
            &&& forall|j: int|
                0 <= j < index::clock_bytes(h.version).len() ==> r[35 + j] == (
                #[trigger] index::clock_bytes(h.version)[j]) as int
        }),
{
    let r = index::rank(h, ad);
    let hash = order::byte_key(sig.hash.0@);
    assert(hash.len() == 32);
    assert forall|j: int| 0 <= j < 32 implies r[2 + j] == (#[trigger] sig.hash.0@[j]) as int by {
        assert(r[2 + j] == hash[j]);
    }
    assert forall|j: int| 0 <= j < index::clock_bytes(h.version).len() implies r[35 + j] == (
    #[trigger] index::clock_bytes(h.version)[j]) as int by {
        assert(r[35 + j] == order::byte_key(index::clock_bytes(h.version))[j]);
    }
}

/// Nothing outranks the winner.
proof fn nothing_outranks(heads: Seq<HeadModel>, k: int)
    requires
        0 <= k < heads.len(),
    ensures
        !order::lex_lt(
            index::rank(index::winner_of(heads), index::adoption(heads)),
            index::rank(heads[k], index::adoption(heads)),
        ),
        heads.contains(index::winner_of(heads)),
{
    canonical::winner_exists(heads);
    let c = choose|i: int| index::is_winner(heads, i);
    assert(heads[c] == index::winner_of(heads));
}

/// Law: the winner is one of the heads.
pub proof fn the_winner_is_a_head(heads: Seq<HeadModel>)
    requires
        heads.len() > 0,
    ensures
        heads.contains(index::winner_of(heads)),
{
    canonical::winner_exists(heads);
}

/// Law: which file wins. A file wins over a deletion. Between files of trees that never
/// met, the one that was modified last wins. Else, or where they were modified at the
/// same time, the one with the higher hash wins; of one hash, the one that is executable;
/// and of one mode too, the one with the higher clock.
pub proof fn the_highest_file_wins(heads: Seq<HeadModel>, k: int, x: ContentSig)
    requires
        0 <= k < heads.len(),
        heads[k].state == EntryState::Present(x),
    ensures
        ({
            let w = index::winner_of(heads);
            let sig = w.state->Present_0;
            let level = !tree::strangers(heads) || x.mtime_ms == sig.mtime_ms;
            &&& w.state is Present
            &&& tree::strangers(heads) ==> x.mtime_ms <= sig.mtime_ms
            &&& level ==> !above(x.hash.0@, sig.hash.0@)
            &&& level && x.hash == sig.hash && x.exec_bit ==> sig.exec_bit
            &&& level && x.hash == sig.hash && x.exec_bit == sig.exec_bit ==> !above(
                index::clock_bytes(heads[k].version),
                index::clock_bytes(w.version),
            )
        }),
{
    canonical::present_beats_tombstone(heads, k);
    tree::strangers_adopt(heads);
    nothing_outranks(heads, k);
    let w = index::winner_of(heads);
    let sig = w.state->Present_0;
    let ad = index::adoption(heads);
    let a = index::rank(w, ad);
    let b = index::rank(heads[k], ad);
    rank_places(w, sig, ad);
    rank_places(heads[k], x, ad);
    if ad && x.mtime_ms > sig.mtime_ms {
        order::first_difference_decides(a, b, 1);
    }
    if !ad || x.mtime_ms == sig.mtime_ms {
        let p = x.hash.0@;
        let q = sig.hash.0@;
        if above(p, q) {
            let j = choose|j: int|
                0 <= j < p.len() && j < q.len() && #[trigger] p[j] > q[j] && forall|i: int|
                    0 <= i < j ==> p[i] == q[i];
            assert(b[2 + j] == p[j] as int && a[2 + j] == q[j] as int);
            assert forall|i: int| 0 <= i < 2 + j implies a[i] == b[i] by {
                if i >= 2 {
                    assert(p[i - 2] == q[i - 2]);
                    assert(b[2 + (i - 2)] == p[i - 2] as int && a[2 + (i - 2)] == q[i - 2] as int);
                }
            }
            order::first_difference_decides(a, b, (2 + j) as nat);
        }
        if x.hash == sig.hash {
            assert forall|i: int| 0 <= i < 34 implies a[i] == b[i] by {
                if i >= 2 {
                    assert(b[2 + (i - 2)] == p[i - 2] as int && a[2 + (i - 2)] == q[i - 2] as int);
                }
            }
            if x.exec_bit && !sig.exec_bit {
                order::first_difference_decides(a, b, 34);
            }
            let c = index::clock_bytes(heads[k].version);
            let d = index::clock_bytes(w.version);
            if x.exec_bit == sig.exec_bit && above(c, d) {
                let j = choose|j: int|
                    0 <= j < c.len() && j < d.len() && #[trigger] c[j] > d[j] && forall|i: int|
                        0 <= i < j ==> c[i] == d[i];
                assert(b[35 + j] == c[j] as int && a[35 + j] == d[j] as int);
                assert forall|i: int| 0 <= i < 35 + j implies a[i] == b[i] by {
                    if i >= 35 {
                        assert(c[i - 35] == d[i - 35]);
                        assert(b[35 + (i - 35)] == c[i - 35] as int && a[35 + (i - 35)] == d[i
                            - 35] as int);
                    }
                }
                order::first_difference_decides(a, b, (35 + j) as nat);
            }
        }
    }
}

/// Law: where everything is gone, the deletion with the higher clock wins.
pub proof fn the_highest_deletion_wins(heads: Seq<HeadModel>, k: int)
    requires
        0 <= k < heads.len(),
        forall|i: int| 0 <= i < heads.len() ==> (#[trigger] heads[i]).state is Tombstone,
    ensures
        index::winner_of(heads).state is Tombstone,
        !above(
            index::clock_bytes(heads[k].version),
            index::clock_bytes(index::winner_of(heads).version),
        ),
{
    nothing_outranks(heads, k);
    let w = index::winner_of(heads);
    let i = heads.index_of(w);
    assert(heads[i].state is Tombstone);
    assert(heads[k].state is Tombstone);
    let ad = index::adoption(heads);
    let a = index::rank(w, ad);
    let b = index::rank(heads[k], ad);
    let c = index::clock_bytes(heads[k].version);
    let d = index::clock_bytes(w.version);
    if above(c, d) {
        let j = choose|j: int|
            0 <= j < c.len() && j < d.len() && #[trigger] c[j] > d[j] && forall|i: int|
                0 <= i < j ==> c[i] == d[i];
        assert forall|i: int| 0 <= i < c.len() implies b[1 + i] == (#[trigger] c[i]) as int by {
            assert(b[1 + i] == order::byte_key(c)[i]);
        }
        assert forall|i: int| 0 <= i < d.len() implies a[1 + i] == (#[trigger] d[i]) as int by {
            assert(a[1 + i] == order::byte_key(d)[i]);
        }
        assert forall|i: int| 0 <= i < 1 + j implies a[i] == b[i] by {
            if i >= 1 {
                assert(c[i - 1] == d[i - 1]);
                assert(b[1 + (i - 1)] == c[i - 1] as int && a[1 + (i - 1)] == d[i - 1] as int);
            }
        }
        order::first_difference_decides(a, b, (1 + j) as nat);
    }
}

// ---- the bytes of a clock --------------------------------------------------
/// Law: the bytes of a clock are its pairs in order, each as the 16 little-endian bytes
/// of the replica and its counter.
pub proof fn clock_bytes_are_its_pairs(s: Seq<(u64, u64)>, i: int)
    requires
        0 <= i < s.len(),
    ensures
        index::clock_bytes(s).len() == 16 * s.len(),
        index::clock_bytes(s).subrange(16 * i, 16 * i + 8)
            == vstd::bytes::spec_u64_to_le_bytes(s[i].0),
        index::clock_bytes(s).subrange(16 * i + 8, 16 * i + 16)
            == vstd::bytes::spec_u64_to_le_bytes(s[i].1),
    decreases s.len(),
{
    let front = s.drop_last();
    let b = index::clock_bytes(s);
    vstd::bytes::lemma_auto_spec_u64_to_from_le_bytes();
    clock_bytes_length(front);
    clock_bytes_length(s);
    if i < front.len() {
        clock_bytes_are_its_pairs(front, i);
        let f = index::clock_bytes(front);
        assert(b.subrange(16 * i, 16 * i + 8) =~= f.subrange(16 * i, 16 * i + 8));
        assert(b.subrange(16 * i + 8, 16 * i + 16) =~= f.subrange(16 * i + 8, 16 * i + 16));
    } else {
        assert(b.subrange(16 * i, 16 * i + 8) =~= vstd::bytes::spec_u64_to_le_bytes(s[i].0));
        assert(b.subrange(16 * i + 8, 16 * i + 16) =~= vstd::bytes::spec_u64_to_le_bytes(s[i].1));
    }
}

proof fn clock_bytes_length(s: Seq<(u64, u64)>)
    ensures
        index::clock_bytes(s).len() == 16 * s.len(),
    decreases s.len(),
{
    vstd::bytes::lemma_auto_spec_u64_to_from_le_bytes();
    if s.len() > 0 {
        clock_bytes_length(s.drop_last());
    }
}

} // verus!
