//! Why replicas converge: an entry is the set of causally maximal versions that
//! were delivered, whatever order they came in.

use crate::bytes;
use crate::clock;
use crate::index;
use crate::index::{EntryState, HeadModel};
use crate::order;
use vstd::prelude::*;

verus! {

/// Versions that compare equal are the same version: clocks are minted by a
/// tick on a single replica, so an equal clock means the same event.
pub open spec fn consistent(ds: Seq<HeadModel>) -> bool {
    forall|i: int, j: int|
        0 <= i < ds.len() && 0 <= j < ds.len() && clock::leq(
            (#[trigger] ds[i]).version,
            (#[trigger] ds[j]).version,
        ) && clock::leq(ds[j].version, ds[i].version) ==> ds[i] == ds[j]
}

/// Every version lists no more replicas than a 64-bit length can tell.
pub open spec fn fits(ds: Seq<HeadModel>) -> bool {
    forall|i: int| 0 <= i < ds.len() ==> (#[trigger] ds[i]).version.len() <= u64::MAX
}

/// `h` was delivered and no delivered version comes after it.
pub open spec fn maximal(ds: Seq<HeadModel>, h: HeadModel) -> bool {
    ds.contains(h) && forall|j: int|
        0 <= j < ds.len() ==> !clock::before(h.version, (#[trigger] ds[j]).version)
}

/// The head set after the deliveries, in their order.
pub open spec fn deliver(ds: Seq<HeadModel>) -> Seq<HeadModel>
    decreases ds.len(),
{
    if ds.len() == 0 {
        seq![]
    } else {
        index::absorbed(deliver(ds.drop_last()), ds.last())
    }
}

/// Heads in strictly ascending order of their canonical bytes.
pub open spec fn ascending(s: Seq<HeadModel>) -> bool {
    forall|i: int, j: int|
        0 <= i < j < s.len() ==> order::bytes_lt(
            index::head_bytes(#[trigger] s[i]),
            index::head_bytes(#[trigger] s[j]),
        )
}

/// No head dominates or equals another.
pub open spec fn antichain(s: Seq<HeadModel>) -> bool {
    forall|i: int, j: int|
        0 <= i < s.len() && 0 <= j < s.len() && i != j ==> !clock::leq(
            (#[trigger] s[i]).version,
            (#[trigger] s[j]).version,
        )
}

/// The shape of every entry that deliveries and local edits produce.
pub open spec fn canonical(s: Seq<HeadModel>) -> bool {
    s.len() > 0 && antichain(s) && ascending(s) && fits(s)
}

/// Two sequences have the same elements.
pub open spec fn same_elements(a: Seq<HeadModel>, b: Seq<HeadModel>) -> bool {
    forall|h: HeadModel| #[trigger] a.contains(h) <==> b.contains(h)
}

// ---- canonical bytes -------------------------------------------------------
proof fn clock_bytes_len(s: Seq<(u64, u64)>)
    ensures
        index::clock_bytes(s).len() == 16 * s.len(),
    decreases s.len(),
{
    if s.len() > 0 {
        clock_bytes_len(s.drop_last());
        bytes::le64_injective(s.last().0, s.last().1);
        bytes::le64_injective(s.last().1, s.last().0);
    }
}

proof fn clock_bytes_injective(a: Seq<(u64, u64)>, b: Seq<(u64, u64)>)
    requires
        a.len() == b.len(),
        index::clock_bytes(a) == index::clock_bytes(b),
    ensures
        a == b,
    decreases a.len(),
{
    if a.len() > 0 {
        let pa = index::clock_bytes(a.drop_last());
        let pb = index::clock_bytes(b.drop_last());
        clock_bytes_len(a.drop_last());
        clock_bytes_len(b.drop_last());
        bytes::le64_injective(a.last().0, b.last().0);
        bytes::le64_injective(b.last().0, a.last().0);
        bytes::le64_injective(a.last().1, b.last().1);
        bytes::le64_injective(b.last().1, a.last().1);
        bytes::concat_injective(
            pa + bytes::le64(a.last().0),
            pb + bytes::le64(b.last().0),
            bytes::le64(a.last().1),
            bytes::le64(b.last().1),
        );
        bytes::concat_injective(pa, pb, bytes::le64(a.last().0), bytes::le64(b.last().0));
        clock_bytes_injective(a.drop_last(), b.drop_last());
        assert(a =~= a.drop_last().push(a.last()));
        assert(b =~= b.drop_last().push(b.last()));
    } else {
        assert(a =~= b);
    }
}

/// A clock can be told from its bytes.
pub proof fn clock_bytes_tell_clock(a: Seq<(u64, u64)>, b: Seq<(u64, u64)>)
    requires
        index::clock_bytes(a) == index::clock_bytes(b),
    ensures
        a == b,
{
    clock_bytes_len(a);
    clock_bytes_len(b);
    clock_bytes_injective(a, b);
}

/// The state can be read off the front of its bytes, up to modification time.
proof fn state_bytes_injective(a: EntryState, b: EntryState, r: Seq<u8>, t: Seq<u8>)
    requires
        index::state_bytes(a) + r == index::state_bytes(b) + t,
    ensures
        index::same_state(a, b),
        r == t,
{
    let x = index::state_bytes(a) + r;
    let y = index::state_bytes(b) + t;
    assert(x[0] == index::state_bytes(a)[0]);
    assert(y[0] == index::state_bytes(b)[0]);
    match (a, b) {
        (EntryState::Present(p), EntryState::Present(q)) => {
            bytes::le64_injective(p.size, q.size);
            bytes::le64_injective(q.size, p.size);
            bytes::concat_injective(index::state_bytes(a), index::state_bytes(b), r, t);
            let ea = seq![if p.exec_bit { 1u8 } else { 0u8 }];
            let eb = seq![if q.exec_bit { 1u8 } else { 0u8 }];
            bytes::concat_injective(
                seq![1u8] + p.hash.0@ + bytes::le64(p.size),
                seq![1u8] + q.hash.0@ + bytes::le64(q.size),
                ea,
                eb,
            );
            assert(ea[0] == eb[0]);
            bytes::concat_injective(
                seq![1u8] + p.hash.0@,
                seq![1u8] + q.hash.0@,
                bytes::le64(p.size),
                bytes::le64(q.size),
            );
            bytes::concat_injective(seq![1u8], seq![1u8], p.hash.0@, q.hash.0@);
            assert(p.hash.0 =~= q.hash.0);
        },
        (EntryState::Tombstone, EntryState::Tombstone) => {
            bytes::concat_injective(seq![0u8], seq![0u8], r, t);
        },
        _ => {},
    }
}

/// A head can be read off the front of its canonical bytes, up to modification
/// time.
pub proof fn head_bytes_injective(a: HeadModel, b: HeadModel, r: Seq<u8>, t: Seq<u8>)
    requires
        a.version.len() <= u64::MAX,
        b.version.len() <= u64::MAX,
        index::head_bytes(a) + r == index::head_bytes(b) + t,
    ensures
        a.version == b.version,
        index::same_state(a.state, b.state),
        r == t,
{
    let na = bytes::le64(a.version.len() as u64);
    let nb = bytes::le64(b.version.len() as u64);
    let ca = index::clock_bytes(a.version);
    let cb = index::clock_bytes(b.version);
    let sa = index::state_bytes(a.state);
    let sb = index::state_bytes(b.state);
    bytes::le64_injective(a.version.len() as u64, b.version.len() as u64);
    bytes::le64_injective(b.version.len() as u64, a.version.len() as u64);
    assert(index::head_bytes(a) + r =~= na + (ca + (sa + r)));
    assert(index::head_bytes(b) + t =~= nb + (cb + (sb + t)));
    bytes::concat_injective(na, nb, ca + (sa + r), cb + (sb + t));
    clock_bytes_len(a.version);
    clock_bytes_len(b.version);
    bytes::concat_injective(ca, cb, sa + r, sb + t);
    clock_bytes_injective(a.version, b.version);
    state_bytes_injective(a.state, b.state, r, t);
}

/// Different clocks give different canonical bytes.
proof fn keys_differ(a: HeadModel, b: HeadModel)
    requires
        a.version.len() <= u64::MAX,
        b.version.len() <= u64::MAX,
        a.version != b.version,
    ensures
        index::head_bytes(a) != index::head_bytes(b),
{
    if index::head_bytes(a) == index::head_bytes(b) {
        head_bytes_injective(a, b, seq![], seq![]);
    }
}

// ---- sorting ---------------------------------------------------------------
/// Placing a head adds exactly that head.
proof fn insert_head_elements(s: Seq<HeadModel>, h: HeadModel)
    ensures
        forall|x: HeadModel| #[trigger]
            index::insert_head(s, h).contains(x) <==> (s.contains(x) || x == h),
    decreases s.len(),
{
    if s.len() == 0 {
        assert(index::insert_head(s, h)[0] == h);
    } else if order::bytes_lt(index::head_bytes(h), index::head_bytes(s.last())) {
        insert_head_elements(s.drop_last(), h);
        let rest = index::insert_head(s.drop_last(), h);
        assert(s =~= s.drop_last().push(s.last()));
        push_elements(rest, s.last());
        push_elements(s.drop_last(), s.last());
    } else {
        push_elements(s, h);
    }
}

proof fn push_elements(s: Seq<HeadModel>, h: HeadModel)
    ensures
        forall|x: HeadModel| #[trigger] s.push(h).contains(x) <==> (s.contains(x) || x == h),
{
    assert forall|x: HeadModel| #[trigger] s.push(h).contains(x) <==> (s.contains(x) || x == h) by {
        if s.contains(x) {
            let i = choose|i: int| 0 <= i < s.len() && s[i] == x;
            assert(s.push(h)[i] == x);
        }
        if x == h {
            assert(s.push(h)[s.len() as int] == x);
        }
        if s.push(h).contains(x) {
            let i = choose|i: int| 0 <= i < s.push(h).len() && s.push(h)[i] == x;
            if i < s.len() {
                assert(s[i] == x);
            }
        }
    }
}

/// Placing a head with a new key keeps the order strict.
proof fn insert_head_ascending(s: Seq<HeadModel>, h: HeadModel)
    requires
        ascending(s),
        forall|i: int|
            0 <= i < s.len() ==> index::head_bytes(#[trigger] s[i]) != index::head_bytes(h),
    ensures
        ascending(index::insert_head(s, h)),
    decreases s.len(),
{
    if s.len() == 0 {
    } else if order::bytes_lt(index::head_bytes(h), index::head_bytes(s.last())) {
        let p = s.drop_last();
        assert(ascending(p)) by {
            assert forall|i: int, j: int| 0 <= i < j < p.len() implies order::bytes_lt(
                index::head_bytes(#[trigger] p[i]),
                index::head_bytes(#[trigger] p[j]),
            ) by {
                assert(p[i] == s[i] && p[j] == s[j]);
            }
        }
        assert forall|i: int| 0 <= i < p.len() implies index::head_bytes(#[trigger] p[i])
            != index::head_bytes(h) by {
            assert(p[i] == s[i]);
        }
        insert_head_ascending(p, h);
        let rest = index::insert_head(p, h);
        insert_head_elements(p, h);
        let all = rest.push(s.last());
        assert(ascending(all)) by {
            assert forall|i: int, j: int| 0 <= i < j < all.len() implies order::bytes_lt(
                index::head_bytes(#[trigger] all[i]),
                index::head_bytes(#[trigger] all[j]),
            ) by {
                if j == rest.len() {
                    assert(rest.contains(rest[i]));
                    if rest[i] != h {
                        assert(p.contains(rest[i]));
                        let k = choose|k: int| 0 <= k < p.len() && p[k] == rest[i];
                        assert(s[k] == rest[i]);
                        assert(order::bytes_lt(
                            index::head_bytes(s[k]),
                            index::head_bytes(s[s.len() - 1]),
                        ));
                    }
                }
            }
        }
    } else {
        let all = s.push(h);
        let n = s.len();
        assert(ascending(all)) by {
            assert forall|i: int, j: int| 0 <= i < j < all.len() implies order::bytes_lt(
                index::head_bytes(#[trigger] all[i]),
                index::head_bytes(#[trigger] all[j]),
            ) by {
                if j == n {
                    let kl = index::head_bytes(s[n - 1]);
                    let kh = index::head_bytes(h);
                    order::bytes_order(kl, kh, kh);
                    order::bytes_order(kh, kl, kl);
                    if i < n - 1 {
                        assert(order::bytes_lt(index::head_bytes(s[i]), kl));
                        order::bytes_order(index::head_bytes(s[i]), kl, kh);
                    }
                }
            }
        }
    }
}

/// Sorting keeps the elements.
proof fn sort_heads_elements(s: Seq<HeadModel>)
    ensures
        same_elements(index::sort_heads(s), s),
    decreases s.len(),
{
    if s.len() > 0 {
        sort_heads_elements(s.drop_last());
        insert_head_elements(index::sort_heads(s.drop_last()), s.last());
        push_elements(s.drop_last(), s.last());
        assert(s =~= s.drop_last().push(s.last()));
        assert forall|x: HeadModel| #[trigger] index::sort_heads(s).contains(x) <==> s.contains(
            x,
        ) by {
            assert(index::sort_heads(s.drop_last()).contains(x) <==> s.drop_last().contains(x));
        }
    }
}

/// Sorting heads with different keys puts them in strictly ascending order.
proof fn sort_heads_ascending(s: Seq<HeadModel>)
    requires
        forall|i: int, j: int|
            0 <= i < j < s.len() ==> index::head_bytes(#[trigger] s[i]) != index::head_bytes(
                #[trigger] s[j],
            ),
    ensures
        ascending(index::sort_heads(s)),
    decreases s.len(),
{
    if s.len() > 0 {
        let p = s.drop_last();
        assert forall|i: int, j: int| 0 <= i < j < p.len() implies index::head_bytes(
            #[trigger] p[i],
        ) != index::head_bytes(#[trigger] p[j]) by {
            assert(p[i] == s[i] && p[j] == s[j]);
        }
        sort_heads_ascending(p);
        sort_heads_elements(p);
        let q = index::sort_heads(p);
        assert forall|i: int| 0 <= i < q.len() implies index::head_bytes(#[trigger] q[i])
            != index::head_bytes(s.last()) by {
            assert(q.contains(q[i]));
            assert(p.contains(q[i]));
            let k = choose|k: int| 0 <= k < p.len() && p[k] == q[i];
            assert(s[k] == q[i]);
            assert(s[s.len() - 1] == s.last());
        }
        insert_head_ascending(q, s.last());
    }
}

/// Strictly ascending sequences with the same elements are the same.
pub proof fn ascending_unique(a: Seq<HeadModel>, b: Seq<HeadModel>)
    requires
        ascending(a),
        ascending(b),
        same_elements(a, b),
    ensures
        a == b,
    decreases a.len(),
{
    if a.len() == 0 {
        if b.len() > 0 {
            assert(b.contains(b[0]));
            assert(a.contains(b[0]));
        }
        assert(a =~= b);
    } else {
        assert(a.contains(a[0]));
        assert(b.contains(a[0]));
        let n = a.len() - 1;
        let m = b.len() - 1;
        assert(a.contains(a[n]));
        assert(b.contains(a[n]));
        let ka = choose|k: int| 0 <= k < b.len() && b[k] == a[n];
        assert(b.contains(b[m]));
        assert(a.contains(b[m]));
        let kb = choose|k: int| 0 <= k < a.len() && a[k] == b[m];
        assert(a[n] == b[m]) by {
            if ka < m && kb < n {
                let x = index::head_bytes(a[n]);
                let y = index::head_bytes(b[m]);
                assert(order::bytes_lt(index::head_bytes(b[ka]), y));
                assert(order::bytes_lt(index::head_bytes(a[kb]), x));
                order::bytes_order(x, y, x);
            }
        }
        let pa = a.drop_last();
        let pb = b.drop_last();
        assert(ascending(pa)) by {
            assert forall|i: int, j: int| 0 <= i < j < pa.len() implies order::bytes_lt(
                index::head_bytes(#[trigger] pa[i]),
                index::head_bytes(#[trigger] pa[j]),
            ) by {
                assert(pa[i] == a[i] && pa[j] == a[j]);
            }
        }
        assert(ascending(pb)) by {
            assert forall|i: int, j: int| 0 <= i < j < pb.len() implies order::bytes_lt(
                index::head_bytes(#[trigger] pb[i]),
                index::head_bytes(#[trigger] pb[j]),
            ) by {
                assert(pb[i] == b[i] && pb[j] == b[j]);
            }
        }
        drop_last_elements(a);
        drop_last_elements(b);
        assert(same_elements(pa, pb)) by {
            assert forall|h: HeadModel| #[trigger] pa.contains(h) <==> pb.contains(h) by {
                assert(pa.contains(h) <==> (a.contains(h) && h != a.last()));
                assert(pb.contains(h) <==> (b.contains(h) && h != b.last()));
            }
        }
        ascending_unique(pa, pb);
        assert(a =~= pa.push(a.last()));
        assert(b =~= pb.push(b.last()));
    }
}

proof fn drop_last_elements(a: Seq<HeadModel>)
    requires
        ascending(a),
        a.len() > 0,
    ensures
        forall|h: HeadModel| #[trigger]
            a.drop_last().contains(h) <==> (a.contains(h) && h != a.last()),
{
    let p = a.drop_last();
    assert forall|h: HeadModel| #[trigger] p.contains(h) <==> (a.contains(h) && h
        != a.last()) by {
        if p.contains(h) {
            let k = choose|k: int| 0 <= k < p.len() && p[k] == h;
            assert(a[k] == h);
            let x = index::head_bytes(a[k]);
            let y = index::head_bytes(a[a.len() - 1]);
            assert(order::bytes_lt(x, y));
            order::bytes_order(x, y, x);
        }
        if a.contains(h) && h != a.last() {
            let k = choose|k: int| 0 <= k < a.len() && a[k] == h;
            assert(p[k] == h);
        }
    }
}

// ---- surviving heads -------------------------------------------------------
/// Which heads survive.
proof fn survivors_elements(s: Seq<HeadModel>, v: Seq<(u64, u64)>)
    ensures
        forall|x: HeadModel| #[trigger]
            index::survivors(s, v).contains(x) <==> (s.contains(x) && !clock::before(x.version, v)),
    decreases s.len(),
{
    if s.len() > 0 {
        let p = s.drop_last();
        survivors_elements(p, v);
        assert(s =~= p.push(s.last()));
        push_elements(p, s.last());
        push_elements(index::survivors(p, v), s.last());
    }
}

/// Heads that survive keep their strict order.
proof fn survivors_ascending(s: Seq<HeadModel>, v: Seq<(u64, u64)>)
    requires
        ascending(s),
    ensures
        ascending(index::survivors(s, v)),
    decreases s.len(),
{
    if s.len() > 0 {
        let p = s.drop_last();
        assert(ascending(p)) by {
            assert forall|i: int, j: int| 0 <= i < j < p.len() implies order::bytes_lt(
                index::head_bytes(#[trigger] p[i]),
                index::head_bytes(#[trigger] p[j]),
            ) by {
                assert(p[i] == s[i] && p[j] == s[j]);
            }
        }
        survivors_ascending(p, v);
        survivors_elements(p, v);
        let r = index::survivors(p, v);
        let all = r.push(s.last());
        assert(ascending(all)) by {
            assert forall|i: int, j: int| 0 <= i < j < all.len() implies order::bytes_lt(
                index::head_bytes(#[trigger] all[i]),
                index::head_bytes(#[trigger] all[j]),
            ) by {
                if j == r.len() {
                    assert(r.contains(r[i]));
                    assert(p.contains(r[i]));
                    let k = choose|k: int| 0 <= k < p.len() && p[k] == r[i];
                    assert(s[k] == r[i]);
                    assert(order::bytes_lt(
                        index::head_bytes(s[k]),
                        index::head_bytes(s[s.len() - 1]),
                    ));
                }
            }
        }
    }
}

/// Absorbing a version leaves something, and nothing but the version and heads that
/// were there.
pub proof fn absorbed_comes_from(s: Seq<HeadModel>, h: HeadModel)
    ensures
        index::absorbed(s, h).len() > 0,
        forall|x: HeadModel| #[trigger]
            index::absorbed(s, h).contains(x) ==> s.contains(x) || x == h,
{
    if !index::knows(s, h.version) {
        let kept = index::survivors(s, h.version);
        survivors_elements(s, h.version);
        push_elements(kept, h);
        sort_heads_elements(kept.push(h));
        index::sort_heads_len(kept.push(h));
    }
}

/// Absorbing a version that no head covers leaves it and the heads that it does not
/// dominate.
pub proof fn absorbed_is_exactly(s: Seq<HeadModel>, h: HeadModel)
    ensures
        index::knows(s, h.version) ==> index::absorbed(s, h) == s,
        !index::knows(s, h.version) ==> forall|x: HeadModel| #[trigger]
            index::absorbed(s, h).contains(x) <==> (x == h || (s.contains(x) && !clock::before(
                x.version,
                h.version,
            ))),
{
    if !index::knows(s, h.version) {
        let kept = index::survivors(s, h.version);
        survivors_elements(s, h.version);
        push_elements(kept, h);
        sort_heads_elements(kept.push(h));
    }
}

/// What one absorption leaves, for heads in canonical order.
proof fn absorbed_elements(s: Seq<HeadModel>, h: HeadModel)
    requires
        ascending(s),
        fits(s),
        h.version.len() <= u64::MAX,
    ensures
        ascending(index::absorbed(s, h)),
        index::knows(s, h.version) ==> index::absorbed(s, h) == s,
        !index::knows(s, h.version) ==> forall|x: HeadModel| #[trigger]
            index::absorbed(s, h).contains(x) <==> ((s.contains(x) && !clock::before(
                x.version,
                h.version,
            )) || x == h),
{
    if !index::knows(s, h.version) {
        let kept = index::survivors(s, h.version);
        survivors_elements(s, h.version);
        survivors_ascending(s, h.version);
        let all = kept.push(h);
        push_elements(kept, h);
        assert forall|i: int, j: int| 0 <= i < j < all.len() implies index::head_bytes(
            #[trigger] all[i],
        ) != index::head_bytes(#[trigger] all[j]) by {
            if j == kept.len() {
                assert(kept.contains(kept[i]));
                assert(s.contains(kept[i]));
                let k = choose|k: int| 0 <= k < s.len() && s[k] == kept[i];
                assert(!clock::leq(h.version, s[k].version));
                clock::leq_reflexive(h.version);
                keys_differ(s[k], h);
            } else {
                let x = index::head_bytes(kept[i]);
                let y = index::head_bytes(kept[j]);
                assert(order::bytes_lt(x, y));
                order::bytes_order(x, y, x);
            }
        }
        sort_heads_ascending(all);
        sort_heads_elements(all);
        assert forall|x: HeadModel| #[trigger]
            index::absorbed(s, h).contains(x) <==> ((s.contains(x) && !clock::before(
                x.version,
                h.version,
            )) || x == h) by {
            assert(index::sort_heads(all).contains(x) <==> all.contains(x));
            assert(all.contains(x) <==> (kept.contains(x) || x == h));
        }
    }
}

// ---- the laws --------------------------------------------------------------
/// Law: after any deliveries, an entry holds exactly the causally maximal
/// versions among them, in canonical order, and every delivered version is
/// covered by a head.
pub proof fn heads_are_the_maximal_versions(ds: Seq<HeadModel>)
    requires
        consistent(ds),
        fits(ds),
    ensures
        ascending(deliver(ds)),
        fits(deliver(ds)),
        forall|h: HeadModel| #[trigger] deliver(ds).contains(h) <==> maximal(ds, h),
        forall|i: int|
            0 <= i < ds.len() ==> index::knows(deliver(ds), (#[trigger] ds[i]).version),
        ds.len() > 0 ==> deliver(ds).len() > 0,
    decreases ds.len(),
{
    if ds.len() > 0 {
        let p = ds.drop_last();
        assert(consistent(p)) by {
            assert forall|i: int, j: int|
                0 <= i < p.len() && 0 <= j < p.len() && clock::leq(
                    (#[trigger] p[i]).version,
                    (#[trigger] p[j]).version,
                ) && clock::leq(p[j].version, p[i].version) implies p[i] == p[j] by {
                assert(p[i] == ds[i] && p[j] == ds[j]);
            }
        }
        assert(fits(p)) by {
            assert forall|i: int| 0 <= i < p.len() implies (#[trigger] p[i]).version.len()
                <= u64::MAX by {
                assert(p[i] == ds[i]);
            }
        }
        heads_are_the_maximal_versions(p);
        one_more_delivery(ds);
    }
}

/// The step of the induction: one more delivery keeps the heads maximal.
proof fn one_more_delivery(ds: Seq<HeadModel>)
    requires
        ds.len() > 0,
        consistent(ds),
        fits(ds),
        ascending(deliver(ds.drop_last())),
        fits(deliver(ds.drop_last())),
        forall|h: HeadModel| #[trigger]
            deliver(ds.drop_last()).contains(h) <==> maximal(ds.drop_last(), h),
        forall|i: int|
            0 <= i < ds.drop_last().len() ==> index::knows(
                deliver(ds.drop_last()),
                (#[trigger] ds.drop_last()[i]).version,
            ),
    ensures
        ascending(deliver(ds)),
        fits(deliver(ds)),
        forall|h: HeadModel| #[trigger] deliver(ds).contains(h) <==> maximal(ds, h),
        forall|i: int|
            0 <= i < ds.len() ==> index::knows(deliver(ds), (#[trigger] ds[i]).version),
        deliver(ds).len() > 0,
{
    let p = ds.drop_last();
    let h = ds.last();
    let n = ds.len() - 1;
    assert(consistent(p)) by {
        assert forall|i: int, j: int|
            0 <= i < p.len() && 0 <= j < p.len() && clock::leq(
                (#[trigger] p[i]).version,
                (#[trigger] p[j]).version,
            ) && clock::leq(p[j].version, p[i].version) implies p[i] == p[j] by {
            assert(p[i] == ds[i] && p[j] == ds[j]);
        }
    }
    assert(fits(p)) by {
        assert forall|i: int| 0 <= i < p.len() implies (#[trigger] p[i]).version.len()
            <= u64::MAX by {
            assert(p[i] == ds[i]);
        }
    }
    let before_heads = deliver(p);
    let after = deliver(ds);
    assert(ds[n] == h);
    absorbed_elements(before_heads, h);
    assert(ds =~= p.push(h));
    push_elements(p, h);
    let known = index::knows(before_heads, h.version);
    // Every delivered version stays covered.
    assert forall|i: int| 0 <= i < ds.len() implies index::knows(
        after,
        (#[trigger] ds[i]).version,
    ) by {
        if i < n {
            assert(p[i] == ds[i]);
            assert(index::knows(before_heads, p[i].version));
            let k = choose|k: int|
                0 <= k < before_heads.len() && clock::leq(
                    p[i].version,
                    (#[trigger] before_heads[k]).version,
                );
            let z = before_heads[k];
            assert(before_heads.contains(z));
            if known {
                assert(after == before_heads);
            } else if clock::before(z.version, h.version) {
                clock::leq_transitive(ds[i].version, z.version, h.version);
                assert(after.contains(h));
                let m = choose|m: int| 0 <= m < after.len() && after[m] == h;
                assert(clock::leq(ds[i].version, after[m].version));
            } else {
                assert(after.contains(z));
                let m = choose|m: int| 0 <= m < after.len() && after[m] == z;
                assert(clock::leq(ds[i].version, after[m].version));
            }
        } else {
            if !known {
                assert(after.contains(h));
                let m = choose|m: int| 0 <= m < after.len() && after[m] == h;
                clock::leq_reflexive(h.version);
                assert(clock::leq(ds[i].version, after[m].version));
            }
        }
    }
    // The heads are the maximal versions.
    assert forall|x: HeadModel| #[trigger] after.contains(x) <==> maximal(ds, x) by {
        assert(before_heads.contains(x) <==> maximal(p, x));
        if known {
            let k = choose|k: int|
                0 <= k < before_heads.len() && clock::leq(
                    h.version,
                    (#[trigger] before_heads[k]).version,
                );
            let y = before_heads[k];
            assert(before_heads.contains(y));
            assert(maximal(p, y));
            let iy = choose|i: int| 0 <= i < p.len() && p[i] == y;
            assert(ds[iy] == y);
            if maximal(p, x) {
                assert(ds.contains(x));
                assert forall|j: int| 0 <= j < ds.len() implies !clock::before(
                    x.version,
                    (#[trigger] ds[j]).version,
                ) by {
                    if j < n {
                        assert(p[j] == ds[j]);
                    } else if clock::before(x.version, h.version) {
                        clock::leq_transitive(x.version, h.version, y.version);
                        assert(clock::before(x.version, p[iy].version));
                    }
                }
            }
            if maximal(ds, x) {
                if x == h {
                    assert(!clock::before(h.version, ds[iy].version));
                    assert(clock::leq(ds[iy].version, ds[n].version));
                    assert(ds[iy] == ds[n]);
                    assert(p.contains(x));
                }
                assert(p.contains(x));
                assert forall|j: int| 0 <= j < p.len() implies !clock::before(
                    x.version,
                    (#[trigger] p[j]).version,
                ) by {
                    assert(p[j] == ds[j]);
                }
            }
        } else {
            if after.contains(x) {
                assert(ds.contains(x));
                assert forall|j: int| 0 <= j < ds.len() implies !clock::before(
                    x.version,
                    (#[trigger] ds[j]).version,
                ) by {
                    if x == h {
                        if j < n && clock::before(h.version, ds[j].version) {
                            assert(p[j] == ds[j]);
                            let k = choose|k: int|
                                0 <= k < before_heads.len() && clock::leq(
                                    p[j].version,
                                    (#[trigger] before_heads[k]).version,
                                );
                            clock::leq_transitive(
                                h.version,
                                ds[j].version,
                                before_heads[k].version,
                            );
                        }
                    } else {
                        if j < n {
                            assert(p[j] == ds[j]);
                        }
                    }
                }
            }
            if maximal(ds, x) && x != h {
                assert(p.contains(x));
                assert forall|j: int| 0 <= j < p.len() implies !clock::before(
                    x.version,
                    (#[trigger] p[j]).version,
                ) by {
                    assert(p[j] == ds[j]);
                }
                assert(!clock::before(x.version, ds[n].version));
            }
        }
    }
    assert(fits(after)) by {
        assert forall|i: int| 0 <= i < after.len() implies (#[trigger] after[i]).version.len()
            <= u64::MAX by {
            assert(after.contains(after[i]));
            assert(maximal(ds, after[i]));
            let k = choose|k: int| 0 <= k < ds.len() && ds[k] == after[i];
            assert(ds[k].version.len() <= u64::MAX);
        }
    }
    assert(index::knows(after, ds[0].version));
}

/// Law: replicas converge. The same versions, delivered in any order and any
/// number of times, leave the same heads.
pub proof fn deliveries_converge(a: Seq<HeadModel>, b: Seq<HeadModel>)
    requires
        same_elements(a, b),
        consistent(a),
        fits(a),
    ensures
        deliver(a) == deliver(b),
{
    assert(consistent(b)) by {
        assert forall|i: int, j: int|
            0 <= i < b.len() && 0 <= j < b.len() && clock::leq(
                (#[trigger] b[i]).version,
                (#[trigger] b[j]).version,
            ) && clock::leq(b[j].version, b[i].version) implies b[i] == b[j] by {
            assert(b.contains(b[i]) && b.contains(b[j]));
            assert(a.contains(b[i]) && a.contains(b[j]));
            let x = choose|x: int| 0 <= x < a.len() && a[x] == b[i];
            let y = choose|y: int| 0 <= y < a.len() && a[y] == b[j];
            assert(clock::leq(a[x].version, a[y].version));
        }
    }
    assert(fits(b)) by {
        assert forall|i: int| 0 <= i < b.len() implies (#[trigger] b[i]).version.len()
            <= u64::MAX by {
            assert(b.contains(b[i]));
            assert(a.contains(b[i]));
            let x = choose|x: int| 0 <= x < a.len() && a[x] == b[i];
            assert(a[x].version.len() <= u64::MAX);
        }
    }
    heads_are_the_maximal_versions(a);
    heads_are_the_maximal_versions(b);
    assert forall|h: HeadModel| #[trigger] maximal(a, h) <==> maximal(b, h) by {
        if maximal(a, h) {
            maximal_transfers(a, b, h);
        }
        if maximal(b, h) {
            maximal_transfers(b, a, h);
        }
    }
    assert(same_elements(deliver(a), deliver(b))) by {
        assert forall|h: HeadModel| #[trigger] deliver(a).contains(h) <==> deliver(b).contains(
            h,
        ) by {
            assert(deliver(a).contains(h) <==> maximal(a, h));
            assert(deliver(b).contains(h) <==> maximal(b, h));
            assert(maximal(a, h) <==> maximal(b, h));
        }
    }
    ascending_unique(deliver(a), deliver(b));
}

proof fn maximal_transfers(a: Seq<HeadModel>, b: Seq<HeadModel>, h: HeadModel)
    requires
        same_elements(a, b),
        maximal(a, h),
    ensures
        maximal(b, h),
{
    assert(a.contains(h));
    assert(b.contains(h));
    assert forall|j: int| 0 <= j < b.len() implies !clock::before(
        h.version,
        (#[trigger] b[j]).version,
    ) by {
        assert(b.contains(b[j]));
        assert(a.contains(b[j]));
        let k = choose|k: int| 0 <= k < a.len() && a[k] == b[j];
        assert(!clock::before(h.version, a[k].version));
    }
}

/// Law: a version that was absorbed is known from then on; absorbing it again
/// changes nothing.
pub proof fn absorb_idempotent(s: Seq<HeadModel>, h: HeadModel)
    ensures
        index::knows(index::absorbed(s, h), h.version),
        index::absorbed(index::absorbed(s, h), h) == index::absorbed(s, h),
{
    let after = index::absorbed(s, h);
    if !index::knows(s, h.version) {
        let all = index::survivors(s, h.version).push(h);
        push_elements(index::survivors(s, h.version), h);
        sort_heads_elements(all);
        assert(all.contains(h));
        assert(after.contains(h));
        let k = choose|k: int| 0 <= k < after.len() && after[k] == h;
        clock::leq_reflexive(h.version);
        assert(clock::leq(h.version, after[k].version));
    }
}

/// A canonical entry is what delivering its own heads builds.
pub proof fn canonical_is_delivered(s: Seq<HeadModel>)
    requires
        canonical(s),
    ensures
        consistent(s),
        deliver(s) == s,
{
    assert(consistent(s)) by {
        assert forall|i: int, j: int|
            0 <= i < s.len() && 0 <= j < s.len() && clock::leq(
                (#[trigger] s[i]).version,
                (#[trigger] s[j]).version,
            ) && clock::leq(s[j].version, s[i].version) implies s[i] == s[j] by {}
    }
    heads_are_the_maximal_versions(s);
    assert forall|h: HeadModel| s.contains(h) implies maximal(s, h) by {
        let k = choose|k: int| 0 <= k < s.len() && s[k] == h;
        assert forall|j: int| 0 <= j < s.len() implies !clock::before(
            h.version,
            (#[trigger] s[j]).version,
        ) by {
            if j == k {
                clock::leq_reflexive(h.version);
            } else {
                assert(!clock::leq(s[k].version, s[j].version));
            }
        }
    }
    assert(same_elements(deliver(s), s)) by {
        assert forall|h: HeadModel| #[trigger] deliver(s).contains(h) <==> s.contains(h) by {
            assert(deliver(s).contains(h) <==> maximal(s, h));
        }
    }
    ascending_unique(deliver(s), s);
}

/// Law: absorbing keeps an entry canonical: non-empty, pairwise concurrent,
/// and in canonical order.
pub proof fn absorb_keeps_canonical(s: Seq<HeadModel>, h: HeadModel)
    requires
        canonical(s),
        h.version.len() <= u64::MAX,
        consistent(s.push(h)),
    ensures
        canonical(index::absorbed(s, h)),
{
    canonical_is_delivered(s);
    let ds = s.push(h);
    assert(ds.drop_last() =~= s);
    assert(fits(ds)) by {
        assert forall|i: int| 0 <= i < ds.len() implies (#[trigger] ds[i]).version.len()
            <= u64::MAX by {
            if i < s.len() {
                assert(ds[i] == s[i]);
            }
        }
    }
    delivered_is_canonical(ds);
    assert(index::absorbed(s, h) == deliver(ds));
}

/// Law: deliveries leave an entry canonical.
pub proof fn delivered_is_canonical(ds: Seq<HeadModel>)
    requires
        ds.len() > 0,
        consistent(ds),
        fits(ds),
    ensures
        canonical(deliver(ds)),
{
    heads_are_the_maximal_versions(ds);
    let after = deliver(ds);
    assert(antichain(after)) by {
        assert forall|i: int, j: int|
            0 <= i < after.len() && 0 <= j < after.len() && i != j implies !clock::leq(
            (#[trigger] after[i]).version,
            (#[trigger] after[j]).version,
        ) by {
            if clock::leq(after[i].version, after[j].version) {
                assert(after.contains(after[i]) && after.contains(after[j]));
                assert(maximal(ds, after[i]) && maximal(ds, after[j]));
                let x = choose|x: int| 0 <= x < ds.len() && ds[x] == after[i];
                let y = choose|y: int| 0 <= y < ds.len() && ds[y] == after[j];
                assert(!clock::before(after[i].version, ds[y].version));
                assert(ds[x] == ds[y]);
                let ki = index::head_bytes(after[i]);
                let kj = index::head_bytes(after[j]);
                order::bytes_order(ki, kj, ki);
                if i < j {
                    assert(order::bytes_lt(ki, kj));
                } else {
                    assert(order::bytes_lt(kj, ki));
                }
            }
        }
    }
}

/// Law: the order in which two versions are absorbed does not matter.
pub proof fn absorb_commutes(s: Seq<HeadModel>, a: HeadModel, b: HeadModel)
    requires
        canonical(s),
        a.version.len() <= u64::MAX,
        b.version.len() <= u64::MAX,
        consistent(s.push(a).push(b)),
    ensures
        index::absorbed(index::absorbed(s, a), b) == index::absorbed(index::absorbed(s, b), a),
{
    canonical_is_delivered(s);
    let x = s.push(a).push(b);
    let y = s.push(b).push(a);
    assert(s.push(a).drop_last() =~= s);
    assert(s.push(b).drop_last() =~= s);
    assert(x.drop_last() =~= s.push(a));
    assert(y.drop_last() =~= s.push(b));
    assert(fits(x)) by {
        assert forall|i: int| 0 <= i < x.len() implies (#[trigger] x[i]).version.len()
            <= u64::MAX by {
            if i < s.len() {
                assert(x[i] == s[i]);
            }
        }
    }
    assert(same_elements(x, y)) by {
        push_elements(s, a);
        push_elements(s, b);
        push_elements(s.push(a), b);
        push_elements(s.push(b), a);
        assert forall|h: HeadModel| #[trigger] x.contains(h) <==> y.contains(h) by {
            assert(s.push(a).contains(h) <==> (s.contains(h) || h == a));
            assert(s.push(b).contains(h) <==> (s.contains(h) || h == b));
        }
    }
    deliveries_converge(x, y);
    assert(deliver(x) == index::absorbed(deliver(s.push(a)), b));
    assert(deliver(s.push(a)) == index::absorbed(s, a));
    assert(deliver(y) == index::absorbed(deliver(s.push(b)), a));
    assert(deliver(s.push(b)) == index::absorbed(s, b));
}

/// Law: a version that dominates every head replaces them all. A local edit is
/// such a version, so it acts as a delivery too.
pub proof fn dominating_version_replaces(s: Seq<HeadModel>, h: HeadModel)
    requires
        forall|i: int|
            0 <= i < s.len() ==> clock::before((#[trigger] s[i]).version, h.version),
    ensures
        index::absorbed(s, h) == seq![h],
{
    let kept = index::survivors(s, h.version);
    survivors_elements(s, h.version);
    assert(kept =~= Seq::<HeadModel>::empty()) by {
        if kept.len() > 0 {
            assert(kept.contains(kept[0]));
            assert(s.contains(kept[0]));
            let k = choose|k: int| 0 <= k < s.len() && s[k] == kept[0];
            assert(clock::before(s[k].version, h.version));
        }
    }
    assert(!index::knows(s, h.version)) by {
        if index::knows(s, h.version) {
            let k = choose|k: int|
                0 <= k < s.len() && clock::leq(h.version, (#[trigger] s[k]).version);
            assert(clock::before(s[k].version, h.version));
        }
    }
    let all = kept.push(h);
    assert(all =~= seq![h]);
    assert(all.drop_last() =~= Seq::<HeadModel>::empty());
    assert(index::sort_heads(all.drop_last()) =~= Seq::<HeadModel>::empty());
    assert(index::sort_heads(all) =~= seq![h]);
}

/// Law: an entry has at most one head per source. When each version comes from
/// one of the `sources` and the versions of one source are causally ordered,
/// no entry has more heads than there are sources.
pub proof fn heads_are_bounded(
    s: Seq<HeadModel>,
    source: spec_fn(HeadModel) -> u64,
    sources: Set<u64>,
)
    requires
        antichain(s),
        sources.finite(),
        forall|i: int| 0 <= i < s.len() ==> sources.contains(source(#[trigger] s[i])),
        forall|i: int, j: int|
            0 <= i < s.len() && 0 <= j < s.len() && source(#[trigger] s[i]) == source(
                #[trigger] s[j],
            ) ==> clock::leq(s[i].version, s[j].version) || clock::leq(
                s[j].version,
                s[i].version,
            ),
    ensures
        s.len() <= sources.len(),
{
    let from = Seq::new(s.len(), |i: int| source(s[i]));
    assert(from.no_duplicates()) by {
        assert forall|i: int, j: int|
            0 <= i < from.len() && 0 <= j < from.len() && i != j implies from[i] != from[j] by {
            assert(from[i] == source(s[i]) && from[j] == source(s[j]));
        }
    }
    from.unique_seq_to_set();
    assert(from.to_set().subset_of(sources)) by {
        assert forall|x: u64| from.to_set().contains(x) implies sources.contains(x) by {
            let i = choose|i: int| 0 <= i < from.len() && from[i] == x;
            assert(from[i] == source(s[i]));
        }
    }
    vstd::set_lib::lemma_len_subset(from.to_set(), sources);
}

} // verus!
