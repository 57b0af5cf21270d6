//! What the canonical bytes of an index tell, and what the winner depends on.

use crate::bytes;
use crate::clock;
use crate::convergence;
use crate::index;
use crate::index::{EntryState, HeadModel, Index};
use crate::order;
use crate::pathmap;
use vstd::prelude::*;

verus! {

/// Two head sets agree up to modification times.
pub open spec fn same_heads(a: Seq<HeadModel>, b: Seq<HeadModel>) -> bool {
    a.len() == b.len() && forall|i: int|
        0 <= i < a.len() ==> (#[trigger] a[i]).version == b[i].version && index::same_state(
            a[i].state,
            b[i].state,
        )
}

/// Two listings agree up to modification times.
pub open spec fn same_listing(
    a: Seq<(Seq<char>, Seq<HeadModel>)>,
    b: Seq<(Seq<char>, Seq<HeadModel>)>,
) -> bool {
    a.len() == b.len() && forall|i: int|
        0 <= i < a.len() ==> (#[trigger] a[i]).0 == b[i].0 && same_heads(a[i].1, b[i].1)
}

/// All lengths can be told in 64 bits.
pub open spec fn entry_fits(e: (Seq<char>, Seq<HeadModel>)) -> bool {
    vstd::utf8::encode_utf8(e.0).len() <= u64::MAX && e.1.len() <= u64::MAX && convergence::fits(
        e.1,
    )
}

/// All lengths of all entries can be told in 64 bits.
pub open spec fn listing_fits(l: Seq<(Seq<char>, Seq<HeadModel>)>) -> bool {
    forall|i: int| 0 <= i < l.len() ==> entry_fits(#[trigger] l[i])
}

proof fn heads_bytes_front(s: Seq<HeadModel>)
    requires
        s.len() > 0,
    ensures
        index::heads_bytes(s) == index::head_bytes(s[0]) + index::heads_bytes(s.drop_first()),
    decreases s.len(),
{
    if s.len() == 1 {
        assert(s.drop_last() =~= Seq::<HeadModel>::empty());
        assert(s.drop_first() =~= Seq::<HeadModel>::empty());
        assert(index::heads_bytes(s) =~= index::head_bytes(s[0]) + index::heads_bytes(
            s.drop_first(),
        ));
    } else {
        heads_bytes_front(s.drop_last());
        assert(s.drop_last().drop_first() =~= s.drop_first().drop_last());
        assert(s.drop_first().last() == s.last());
        assert(index::heads_bytes(s) =~= index::head_bytes(s[0]) + index::heads_bytes(
            s.drop_first(),
        ));
    }
}

proof fn index_bytes_front(l: Seq<(Seq<char>, Seq<HeadModel>)>)
    requires
        l.len() > 0,
    ensures
        index::index_bytes(l) == index::entry_bytes(l[0].0, l[0].1) + index::index_bytes(
            l.drop_first(),
        ),
    decreases l.len(),
{
    let e = index::entry_bytes(l[0].0, l[0].1);
    if l.len() == 1 {
        assert(l.drop_last() =~= Seq::<(Seq<char>, Seq<HeadModel>)>::empty());
        assert(l.drop_first() =~= Seq::<(Seq<char>, Seq<HeadModel>)>::empty());
        assert(index::index_bytes(l) =~= e + index::index_bytes(l.drop_first()));
    } else {
        index_bytes_front(l.drop_last());
        assert(l.drop_last().drop_first() =~= l.drop_first().drop_last());
        assert(l.drop_first().last() == l.last());
        assert(index::index_bytes(l) =~= e + index::index_bytes(l.drop_first()));
    }
}

/// As many heads as are known to follow can be read off the front.
proof fn heads_bytes_injective(a: Seq<HeadModel>, b: Seq<HeadModel>, r: Seq<u8>, t: Seq<u8>)
    requires
        a.len() == b.len(),
        convergence::fits(a),
        convergence::fits(b),
        index::heads_bytes(a) + r == index::heads_bytes(b) + t,
    ensures
        same_heads(a, b),
        r == t,
    decreases a.len(),
{
    if a.len() == 0 {
        assert(index::heads_bytes(a) + r =~= r);
        assert(index::heads_bytes(b) + t =~= t);
    } else {
        heads_bytes_front(a);
        heads_bytes_front(b);
        let ta = index::heads_bytes(a.drop_first());
        let tb = index::heads_bytes(b.drop_first());
        assert(index::heads_bytes(a) + r =~= index::head_bytes(a[0]) + (ta + r));
        assert(index::heads_bytes(b) + t =~= index::head_bytes(b[0]) + (tb + t));
        convergence::head_bytes_injective(a[0], b[0], ta + r, tb + t);
        let fa = a.drop_first();
        let fb = b.drop_first();
        assert forall|i: int| 0 <= i < fa.len() implies (#[trigger] fa[i]).version.len()
            <= u64::MAX by {
            assert(fa[i] == a[i + 1]);
        }
        assert forall|i: int| 0 <= i < fb.len() implies (#[trigger] fb[i]).version.len()
            <= u64::MAX by {
            assert(fb[i] == b[i + 1]);
        }
        heads_bytes_injective(fa, fb, r, t);
        assert forall|i: int| 0 <= i < a.len() implies (#[trigger] a[i]).version == b[i].version
            && index::same_state(a[i].state, b[i].state) by {
            if i > 0 {
                assert(fa[i - 1] == a[i]);
                assert(fb[i - 1] == b[i]);
            }
        }
    }
}

/// One entry can be read off the front.
proof fn entry_bytes_injective(
    a: (Seq<char>, Seq<HeadModel>),
    b: (Seq<char>, Seq<HeadModel>),
    r: Seq<u8>,
    t: Seq<u8>,
)
    requires
        entry_fits(a),
        entry_fits(b),
        index::entry_bytes(a.0, a.1) + r == index::entry_bytes(b.0, b.1) + t,
    ensures
        a.0 == b.0,
        same_heads(a.1, b.1),
        r == t,
{
    let ua = vstd::utf8::encode_utf8(a.0);
    let ub = vstd::utf8::encode_utf8(b.0);
    let la = bytes::le64(ua.len() as u64);
    let lb = bytes::le64(ub.len() as u64);
    let na = bytes::le64(a.1.len() as u64);
    let nb = bytes::le64(b.1.len() as u64);
    let ha = index::heads_bytes(a.1);
    let hb = index::heads_bytes(b.1);
    bytes::le64_injective(ua.len() as u64, ub.len() as u64);
    bytes::le64_injective(ub.len() as u64, ua.len() as u64);
    bytes::le64_injective(a.1.len() as u64, b.1.len() as u64);
    bytes::le64_injective(b.1.len() as u64, a.1.len() as u64);
    assert(index::entry_bytes(a.0, a.1) + r =~= la + (ua + (na + (ha + r))));
    assert(index::entry_bytes(b.0, b.1) + t =~= lb + (ub + (nb + (hb + t))));
    bytes::concat_injective(la, lb, ua + (na + (ha + r)), ub + (nb + (hb + t)));
    bytes::concat_injective(ua, ub, na + (ha + r), nb + (hb + t));
    order::utf8_injective(a.0, b.0);
    bytes::concat_injective(na, nb, ha + r, hb + t);
    heads_bytes_injective(a.1, b.1, r, t);
}

/// Law: any difference in content gives different canonical bytes. Two indices
/// with the same bytes list the same paths with the same versions and states,
/// up to modification times.
pub proof fn canonical_bytes_injective(
    a: Seq<(Seq<char>, Seq<HeadModel>)>,
    b: Seq<(Seq<char>, Seq<HeadModel>)>,
)
    requires
        listing_fits(a),
        listing_fits(b),
        index::index_bytes(a) == index::index_bytes(b),
    ensures
        same_listing(a, b),
    decreases a.len(),
{
    if a.len() == 0 {
        if b.len() > 0 {
            index_bytes_front(b);
            entry_not_empty(b[0].0, b[0].1);
        }
    } else if b.len() == 0 {
        index_bytes_front(a);
        entry_not_empty(a[0].0, a[0].1);
    } else {
        index_bytes_front(a);
        index_bytes_front(b);
        let fa = a.drop_first();
        let fb = b.drop_first();
        rest_fits(a);
        rest_fits(b);
        entry_bytes_injective(a[0], b[0], index::index_bytes(fa), index::index_bytes(fb));
        canonical_bytes_injective(fa, fb);
        same_from_front(a, b);
    }
}

proof fn rest_fits(l: Seq<(Seq<char>, Seq<HeadModel>)>)
    requires
        l.len() > 0,
        listing_fits(l),
    ensures
        entry_fits(l[0]),
        listing_fits(l.drop_first()),
{
    assert forall|i: int| 0 <= i < l.drop_first().len() implies entry_fits(
        #[trigger] l.drop_first()[i],
    ) by {
        assert(l.drop_first()[i] == l[i + 1]);
    }
}

proof fn same_from_front(
    a: Seq<(Seq<char>, Seq<HeadModel>)>,
    b: Seq<(Seq<char>, Seq<HeadModel>)>,
)
    requires
        a.len() > 0,
        b.len() > 0,
        a[0].0 == b[0].0,
        same_heads(a[0].1, b[0].1),
        same_listing(a.drop_first(), b.drop_first()),
    ensures
        same_listing(a, b),
{
    let fa = a.drop_first();
    let fb = b.drop_first();
    assert forall|i: int| 0 <= i < a.len() implies (#[trigger] a[i]).0 == b[i].0 && same_heads(
        a[i].1,
        b[i].1,
    ) by {
        if i > 0 {
            assert(fa[i - 1] == a[i]);
            assert(fb[i - 1] == b[i]);
        }
    }
}

proof fn entry_not_empty(p: Seq<char>, h: Seq<HeadModel>)
    ensures
        index::entry_bytes(p, h).len() > 0,
{
    bytes::le64_injective(vstd::utf8::encode_utf8(p).len() as u64, 0);
}

/// Law: equal indices have equal canonical bytes, however they were built.
pub proof fn canonical_bytes_deterministic(a: Index, b: Index)
    requires
        pathmap::sorted(a.listing()),
        pathmap::sorted(b.listing()),
        a@ == b@,
    ensures
        index::index_bytes(a.listing()) == index::index_bytes(b.listing()),
{
    pathmap::map_determines_listing(a.listing(), b.listing());
}

/// Law: modification times do not reach the canonical bytes.
pub proof fn canonical_bytes_ignore_mtime(
    a: Seq<(Seq<char>, Seq<HeadModel>)>,
    b: Seq<(Seq<char>, Seq<HeadModel>)>,
)
    requires
        same_listing(a, b),
    ensures
        index::index_bytes(a) == index::index_bytes(b),
    decreases a.len(),
{
    if a.len() > 0 {
        let pa = a.drop_last();
        let pb = b.drop_last();
        assert forall|i: int| 0 <= i < pa.len() implies (#[trigger] pa[i]).0 == pb[i].0
            && same_heads(pa[i].1, pb[i].1) by {
            assert(pa[i] == a[i] && pb[i] == b[i]);
        }
        canonical_bytes_ignore_mtime(pa, pb);
        let n = a.len() - 1;
        assert(a[n].0 == b[n].0 && same_heads(a[n].1, b[n].1));
        heads_bytes_ignore_mtime(a[n].1, b[n].1);
    }
}

proof fn heads_bytes_ignore_mtime(a: Seq<HeadModel>, b: Seq<HeadModel>)
    requires
        same_heads(a, b),
    ensures
        index::heads_bytes(a) == index::heads_bytes(b),
    decreases a.len(),
{
    if a.len() > 0 {
        let pa = a.drop_last();
        let pb = b.drop_last();
        assert forall|i: int| 0 <= i < pa.len() implies (#[trigger] pa[i]).version
            == pb[i].version && index::same_state(pa[i].state, pb[i].state) by {
            assert(pa[i] == a[i] && pb[i] == b[i]);
        }
        heads_bytes_ignore_mtime(pa, pb);
        let n = a.len() - 1;
        assert(a[n].version == b[n].version && index::same_state(a[n].state, b[n].state));
    }
}

/// There is a winner among any heads.
pub proof fn winner_exists(heads: Seq<HeadModel>)
    requires
        heads.len() > 0,
    ensures
        exists|i: int| index::is_winner(heads, i),
        heads.contains(index::winner_of(heads)),
{
    let i = best(heads, heads.len() as int);
    best_is_highest(heads, heads.len() as int);
    assert(index::is_winner(heads, i));
    let c = choose|k: int| index::is_winner(heads, k);
    assert(heads[c] == index::winner_of(heads));
}

spec fn best(heads: Seq<HeadModel>, n: int) -> int
    decreases n,
{
    if n <= 1 {
        0
    } else {
        let b = best(heads, n - 1);
        if order::lex_lt(
            index::rank(heads[b], index::adoption(heads)),
            index::rank(heads[n - 1], index::adoption(heads)),
        ) {
            n - 1
        } else {
            b
        }
    }
}

proof fn best_is_highest(heads: Seq<HeadModel>, n: int)
    requires
        1 <= n <= heads.len(),
    ensures
        0 <= best(heads, n) < n,
        forall|j: int|
            0 <= j < n ==> !order::lex_lt(
                index::rank(heads[best(heads, n)], index::adoption(heads)),
                index::rank(#[trigger] heads[j], index::adoption(heads)),
            ),
        forall|j: int|
            0 <= j < best(heads, n) ==> order::lex_lt(
                index::rank(#[trigger] heads[j], index::adoption(heads)),
                index::rank(heads[best(heads, n)], index::adoption(heads)),
            ),
    decreases n,
{
    let ad = index::adoption(heads);
    if n == 1 {
        order::lex_irreflexive(index::rank(heads[0], ad));
    } else {
        best_is_highest(heads, n - 1);
        let b = best(heads, n - 1);
        let x = index::rank(heads[b], ad);
        let y = index::rank(heads[n - 1], ad);
        if order::lex_lt(x, y) {
            order::lex_asymmetric(x, y);
            assert forall|j: int| 0 <= j < n - 1 implies order::lex_lt(
                index::rank(#[trigger] heads[j], ad),
                y,
            ) by {
                let z = index::rank(heads[j], ad);
                order::lex_total(z, x);
                if order::lex_lt(z, x) {
                    order::lex_transitive(z, x, y);
                }
            }
            assert forall|j: int| 0 <= j < n implies !order::lex_lt(
                y,
                index::rank(#[trigger] heads[j], ad),
            ) by {
                if j < n - 1 {
                    order::lex_asymmetric(index::rank(heads[j], ad), y);
                } else {
                    order::lex_irreflexive(y);
                }
            }
        }
    }
}

proof fn adoption_of_elements(a: Seq<HeadModel>, b: Seq<HeadModel>)
    requires
        convergence::antichain(a),
        convergence::antichain(b),
        convergence::same_elements(a, b),
        index::adoption(a),
    ensures
        index::adoption(b),
{
    assert(a.contains(a[0]) && a.contains(a[1]));
    assert(b.contains(a[0]) && b.contains(a[1]));
    clock::leq_reflexive(a[0].version);
    assert(a[0] != a[1]) by {
        assert(!clock::leq(a[0].version, a[1].version));
    }
    let k0 = choose|k: int| 0 <= k < b.len() && b[k] == a[0];
    let k1 = choose|k: int| 0 <= k < b.len() && b[k] == a[1];
    assert(k0 != k1);
    assert forall|i: int, j: int| 0 <= i < j < b.len() implies index::disjoint(
        (#[trigger] b[i]).version,
        (#[trigger] b[j]).version,
    ) by {
        assert(b.contains(b[i]) && b.contains(b[j]));
        assert(a.contains(b[i]) && a.contains(b[j]));
        let x = choose|x: int| 0 <= x < a.len() && a[x] == b[i];
        let y = choose|y: int| 0 <= y < a.len() && a[y] == b[j];
        assert(x != y) by {
            if x == y {
                clock::leq_reflexive(b[i].version);
                assert(!clock::leq(b[i].version, b[j].version));
            }
        }
        if x < y {
            assert(index::disjoint(a[x].version, a[y].version));
        } else {
            assert(index::disjoint(a[y].version, a[x].version));
        }
    }
}

/// Law: the winner, and whether the adoption rule applies, depend only on the
/// set of heads. Every replica with the same heads names the same winner,
/// whatever order it lists them in.
pub proof fn winner_is_order_independent(a: Seq<HeadModel>, b: Seq<HeadModel>)
    requires
        a.len() > 0,
        convergence::antichain(a),
        convergence::antichain(b),
        convergence::same_elements(a, b),
        convergence::fits(a),
    ensures
        index::adoption(a) == index::adoption(b),
        index::winner_of(a) == index::winner_of(b),
{
    if index::adoption(a) {
        adoption_of_elements(a, b);
    }
    if index::adoption(b) {
        adoption_of_elements(b, a);
    }
    let ad = index::adoption(a);
    assert(a.contains(a[0]));
    assert(b.contains(a[0]));
    winner_exists(a);
    winner_exists(b);
    let i = choose|i: int| index::is_winner(a, i);
    let j = choose|j: int| index::is_winner(b, j);
    let x = a[i];
    let y = b[j];
    assert(a.contains(x) && b.contains(y));
    assert(b.contains(x) && a.contains(y));
    let ib = choose|k: int| 0 <= k < b.len() && b[k] == x;
    let ja = choose|k: int| 0 <= k < a.len() && a[k] == y;
    assert(!order::lex_lt(index::rank(a[i], ad), index::rank(a[ja], ad)));
    assert(!order::lex_lt(index::rank(b[j], ad), index::rank(b[ib], ad)));
    order::lex_total(index::rank(x, ad), index::rank(y, ad));
    rank_tells_clock(x, y, ad);
    assert(i == ja) by {
        if i != ja {
            clock::leq_reflexive(x.version);
            assert(!clock::leq(a[i].version, a[ja].version));
        }
    }
}

/// Equal ranks mean equal clocks.
proof fn rank_tells_clock(x: HeadModel, y: HeadModel, ad: bool)
    requires
        index::rank(x, ad) == index::rank(y, ad),
        x.version.len() <= u64::MAX,
    ensures
        x.version == y.version,
{
    let rx = index::rank(x, ad);
    let ry = index::rank(y, ad);
    let cx = order::byte_key(index::clock_bytes(x.version));
    let cy = order::byte_key(index::clock_bytes(y.version));
    assert(rx[0] == ry[0]);
    match (x.state, y.state) {
        (EntryState::Present(_), EntryState::Present(_)) => {
            assert(cx =~= rx.skip(35));
            assert(cy =~= ry.skip(35));
        },
        (EntryState::Tombstone, EntryState::Tombstone) => {
            assert(cx =~= rx.skip(1));
            assert(cy =~= ry.skip(1));
        },
        _ => {},
    }
    order::byte_key_injective(index::clock_bytes(x.version), index::clock_bytes(y.version));
    convergence::clock_bytes_tell_clock(x.version, y.version);
}

/// Law: a file that exists outlives a concurrent deletion: where some head is
/// present, the winner is present.
pub proof fn present_beats_tombstone(heads: Seq<HeadModel>, k: int)
    requires
        0 <= k < heads.len(),
        heads[k].state is Present,
    ensures
        index::winner_of(heads).state is Present,
{
    winner_exists(heads);
    let i = choose|i: int| index::is_winner(heads, i);
    let ad = index::adoption(heads);
    let x = index::rank(heads[i], ad);
    let y = index::rank(heads[k], ad);
    assert(!order::lex_lt(x, y));
    assert(y[0] == 1);
    if heads[i].state is Tombstone {
        assert(x[0] == 0);
        assert(order::lex_lt(x, y));
    }
}

} // verus!
