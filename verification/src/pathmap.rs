//! A map keyed by path that keeps its entries in ascending path order.

use crate::order;
use crate::path::RelPath;
use vstd::prelude::*;

verus! {

/// Entries in strictly ascending path order.
pub open spec fn sorted<V>(l: Seq<(Seq<char>, V)>) -> bool {
    forall|i: int, j: int|
        0 <= i < j < l.len() ==> order::text_lt(#[trigger] l[i].0, #[trigger] l[j].0)
}

/// Whether the listing has an entry for `p`.
pub open spec fn lists<V>(l: Seq<(Seq<char>, V)>, p: Seq<char>) -> bool {
    exists|i: int| 0 <= i < l.len() && #[trigger] l[i].0 == p
}

/// The map that a listing stands for.
pub open spec fn to_map<V>(l: Seq<(Seq<char>, V)>) -> Map<Seq<char>, V> {
    Map::new(
        |p: Seq<char>| lists(l, p),
        |p: Seq<char>| l[choose|i: int| 0 <= i < l.len() && #[trigger] l[i].0 == p].1,
    )
}

/// A listed entry is the map's value.
pub proof fn listed<V>(l: Seq<(Seq<char>, V)>, i: int)
    requires
        sorted(l),
        0 <= i < l.len(),
    ensures
        to_map(l).dom().contains(l[i].0),
        to_map(l)[l[i].0] == l[i].1,
        forall|k: int| 0 <= k < l.len() && #[trigger] l[k].0 == l[i].0 ==> k == i,
{
    let p = l[i].0;
    assert(lists(l, p));
    let k = choose|k: int| 0 <= k < l.len() && #[trigger] l[k].0 == p;
    assert forall|m: int| 0 <= m < l.len() && #[trigger] l[m].0 == p implies m == i by {
        order::text_order(l[i].0, l[m].0, l[i].0);
        if m < i {
            assert(order::text_lt(l[m].0, l[i].0));
        } else if i < m {
            assert(order::text_lt(l[i].0, l[m].0));
        }
    }
    assert(k == i);
}

/// Dropping the last entry removes its key.
pub proof fn drop_last_map<V>(l: Seq<(Seq<char>, V)>)
    requires
        sorted(l),
        l.len() > 0,
    ensures
        sorted(l.drop_last()),
        to_map(l.drop_last()) == to_map(l).remove(l.last().0),
{
    let p = l.drop_last();
    assert(sorted(p)) by {
        assert forall|i: int, j: int| 0 <= i < j < p.len() implies order::text_lt(
            #[trigger] p[i].0,
            #[trigger] p[j].0,
        ) by {
            assert(order::text_lt(l[i].0, l[j].0));
        }
    }
    let last = l.last().0;
    listed(l, l.len() - 1);
    assert forall|k: Seq<char>| lists(p, k) <==> (lists(l, k) && k != last) by {
        if lists(p, k) {
            let i = choose|i: int| 0 <= i < p.len() && #[trigger] p[i].0 == k;
            assert(l[i].0 == k);
        }
        if lists(l, k) && k != last {
            let i = choose|i: int| 0 <= i < l.len() && #[trigger] l[i].0 == k;
            assert(p[i].0 == k);
        }
    }
    assert forall|k: Seq<char>| lists(p, k) implies to_map(p)[k] == to_map(l)[k] by {
        let i = choose|i: int| 0 <= i < p.len() && #[trigger] p[i].0 == k;
        listed(p, i);
        listed(l, i);
        assert(l[i] == p[i]);
    }
    assert(to_map(p) =~= to_map(l).remove(last));
}

/// The listing is determined by the map it stands for.
pub proof fn map_determines_listing<V>(a: Seq<(Seq<char>, V)>, b: Seq<(Seq<char>, V)>)
    requires
        sorted(a),
        sorted(b),
        to_map(a) == to_map(b),
    ensures
        a == b,
    decreases a.len(),
{
    if a.len() == 0 {
        if b.len() > 0 {
            listed(b, 0);
            assert(to_map(a).dom().contains(b[0].0));
        }
        assert(a =~= b);
    } else {
        let n = a.len() - 1;
        let m = b.len() - 1;
        listed(a, n);
        assert(to_map(b).dom().contains(a[n].0));
        let ka = choose|k: int| 0 <= k < b.len() && #[trigger] b[k].0 == a[n].0;
        listed(b, m);
        assert(to_map(a).dom().contains(b[m].0));
        let kb = choose|k: int| 0 <= k < a.len() && #[trigger] a[k].0 == b[m].0;
        assert(a[n].0 == b[m].0) by {
            order::text_order(a[n].0, b[m].0, a[n].0);
            if ka < m {
                assert(order::text_lt(b[ka].0, b[m].0));
            }
            if kb < n {
                assert(order::text_lt(a[kb].0, a[n].0));
            }
        }
        assert(a.last() == b.last());
        drop_last_map(a);
        drop_last_map(b);
        map_determines_listing(a.drop_last(), b.drop_last());
        assert(a =~= a.drop_last().push(a.last()));
        assert(b =~= b.drop_last().push(b.last()));
    }
}

/// The ascending listing of a map.
pub open spec fn listing_of<V>(m: Map<Seq<char>, V>) -> Seq<(Seq<char>, V)> {
    choose|l: Seq<(Seq<char>, V)>| sorted(l) && #[trigger] to_map(l) == m
}

/// The listing of a listing's map is that listing.
pub proof fn listing_of_map<V>(l: Seq<(Seq<char>, V)>)
    requires
        sorted(l),
    ensures
        listing_of(to_map(l)) == l,
{
    let c = listing_of(to_map(l));
    assert(sorted(c) && to_map(c) == to_map(l));
    map_determines_listing(c, l);
}

/// The map that inserting the pairs in order builds; a later pair for a path
/// replaces an earlier one.
pub open spec fn built<V>(pairs: Seq<(Seq<char>, V)>) -> Map<Seq<char>, V>
    decreases pairs.len(),
{
    if pairs.len() == 0 {
        Map::empty()
    } else {
        built(pairs.drop_last()).insert(pairs.last().0, pairs.last().1)
    }
}

/// Inserting a listing's own pairs builds its own map.
pub proof fn built_listing<V>(l: Seq<(Seq<char>, V)>)
    requires
        sorted(l),
    ensures
        built(l) == to_map(l),
    decreases l.len(),
{
    if l.len() == 0 {
        assert(built(l) =~= to_map(l));
    } else {
        drop_last_map(l);
        built_listing(l.drop_last());
        listed(l, l.len() - 1);
        assert(built(l) =~= to_map(l));
    }
}

/// The map has as many keys as the listing has entries.
pub proof fn size_of_map<V>(l: Seq<(Seq<char>, V)>)
    requires
        sorted(l),
    ensures
        to_map(l).dom().finite(),
        to_map(l).dom().len() == l.len(),
    decreases l.len(),
{
    if l.len() == 0 {
        assert(to_map(l).dom() =~= Set::empty());
    } else {
        drop_last_map(l);
        size_of_map(l.drop_last());
        listed(l, l.len() - 1);
        assert(to_map(l).dom() =~= to_map(l.drop_last()).dom().insert(l.last().0));
        assert(!to_map(l.drop_last()).dom().contains(l.last().0));
    }
}

/// A map keyed by path, in ascending path order.
#[derive(Debug, PartialEq, Eq)]
pub struct PathMap<V> {
    entries: Vec<(RelPath, V)>,
}

impl<V> View for PathMap<V> {
    type V = Map<Seq<char>, V>;

    open spec fn view(&self) -> Map<Seq<char>, V> {
        to_map(self.listing())
    }
}

/// The entries with each path replaced by its text.
spec fn list_of<V>(entries: Seq<(RelPath, V)>) -> Seq<(Seq<char>, V)> {
    Seq::new(entries.len(), |i: int| (entries[i].0@, entries[i].1))
}

impl<V> PathMap<V> {
    /// The entries in order.
    pub closed spec fn listing(&self) -> Seq<(Seq<char>, V)> {
        list_of(self.entries@)
    }

    /// Entries are kept in ascending path order.
    #[verifier::type_invariant]
    pub open spec fn wf(self) -> bool {
        sorted(self.listing())
    }

    /// An empty map.
    pub fn new() -> (m: Self)
        ensures
            m@ == Map::<Seq<char>, V>::empty(),
            m.listing() == Seq::<(Seq<char>, V)>::empty(),
    {
        let m = PathMap { entries: Vec::new() };
        assert(m.listing() =~= Seq::<(Seq<char>, V)>::empty());
        assert(m@ =~= Map::<Seq<char>, V>::empty());
        m
    }

    /// The number of entries.
    pub fn len(&self) -> (n: usize)
        ensures
            n == self.listing().len(),
            sorted(self.listing()),
    {
        proof {
            use_type_invariant(self);
        }
        self.entries.len()
    }

    /// The path at position `i`.
    pub fn key(&self, i: usize) -> (p: &RelPath)
        requires
            i < self.listing().len(),
        ensures
            p@ == self.listing()[i as int].0,
    {
        &self.entries[i].0
    }

    /// The value at position `i`.
    pub fn value(&self, i: usize) -> (v: &V)
        requires
            i < self.listing().len(),
        ensures
            *v == self.listing()[i as int].1,
    {
        &self.entries[i].1
    }

    /// The first position whose path does not come before `path`.
    fn position(&self, path: &RelPath) -> (k: usize)
        ensures
            sorted(self.listing()),
            k <= self.listing().len(),
            forall|i: int|
                0 <= i < k ==> order::text_lt((#[trigger] self.listing()[i]).0, path@),
            forall|i: int|
                k <= i < self.listing().len() ==> !order::text_lt(
                    (#[trigger] self.listing()[i]).0,
                    path@,
                ),
    {
        proof {
            use_type_invariant(self);
        }
        let ghost l = self.listing();
        let mut lo: usize = 0;
        let mut hi: usize = self.entries.len();
        while lo < hi
            invariant
                l == self.listing(),
                sorted(l),
                l == list_of(self.entries@),
                l.len() == self.entries@.len(),
                lo <= hi <= l.len(),
                forall|i: int| 0 <= i < lo ==> order::text_lt((#[trigger] l[i]).0, path@),
                forall|i: int| hi <= i < l.len() ==> !order::text_lt((#[trigger] l[i]).0, path@),
            decreases hi - lo,
        {
            let mid: usize = lo + (hi - lo) / 2;
            let r = order::compare_text(self.entries[mid].0.as_str(), path.as_str());
            proof {
                assert(l[mid as int].0 == self.entries@[mid as int].0@);
            }
            match r {
                order::Rank::Less => {
                    proof {
                        assert forall|i: int| 0 <= i < mid + 1 implies order::text_lt(
                            (#[trigger] l[i]).0,
                            path@,
                        ) by {
                            if i < mid {
                                order::text_order(l[i].0, l[mid as int].0, path@);
                            }
                        }
                    }
                    lo = mid + 1;
                },
                _ => {
                    proof {
                        assert forall|i: int| mid <= i < l.len() implies !order::text_lt(
                            (#[trigger] l[i]).0,
                            path@,
                        ) by {
                            if mid < i {
                                order::text_order(l[mid as int].0, l[i].0, path@);
                            }
                        }
                    }
                    hi = mid;
                },
            }
        }
        lo
    }

    /// Whether position `k`, found for `path`, holds it.
    fn holds(&self, k: usize, path: &RelPath) -> (b: bool)
        requires
            sorted(self.listing()),
            k <= self.listing().len(),
            forall|i: int|
                0 <= i < k ==> order::text_lt((#[trigger] self.listing()[i]).0, path@),
            forall|i: int|
                k <= i < self.listing().len() ==> !order::text_lt(
                    (#[trigger] self.listing()[i]).0,
                    path@,
                ),
        ensures
            b == lists(self.listing(), path@),
            b ==> k < self.listing().len() && self.listing()[k as int].0 == path@
                && self@.dom().contains(path@) && self@[path@] == self.listing()[k as int].1,
            !b ==> !self@.dom().contains(path@),
            !b ==> forall|i: int|
                k <= i < self.listing().len() ==> order::text_lt(
                    path@,
                    (#[trigger] self.listing()[i]).0,
                ),
    {
        let ghost l = self.listing();
        if k < self.entries.len() && self.entries[k].0.same(path) {
            proof {
                assert(l[k as int].0 == path@);
                listed(l, k as int);
            }
            true
        } else {
            proof {
                assert forall|i: int| 0 <= i < l.len() implies (#[trigger] l[i]).0 != path@ by {
                    order::text_order(l[i].0, path@, path@);
                    if k < i {
                        order::text_order(l[k as int].0, l[i].0, path@);
                        order::text_order(path@, l[k as int].0, path@);
                    }
                }
                assert forall|i: int| k <= i < l.len() implies order::text_lt(
                    path@,
                    (#[trigger] l[i]).0,
                ) by {
                    order::text_order(path@, l[i].0, path@);
                }
            }
            false
        }
    }

    /// The value for `path`, if any.
    pub fn get(&self, path: &RelPath) -> (v: Option<&V>)
        ensures
            match v {
                Some(x) => self@.dom().contains(path@) && *x == self@[path@],
                None => !self@.dom().contains(path@),
            },
    {
        let k: usize = self.position(path);
        if self.holds(k, path) {
            Some(&self.entries[k].1)
        } else {
            None
        }
    }

    /// Set the value for `path`, returning the previous one.
    pub fn insert(&mut self, path: RelPath, value: V) -> (prev: Option<V>)
        ensures
            final(self)@ == old(self)@.insert(path@, value),
            sorted(final(self).listing()),
            match prev {
                Some(x) => old(self)@.dom().contains(path@) && x == old(self)@[path@],
                None => !old(self)@.dom().contains(path@),
            },
    {
        let k: usize = self.position(&path);
        let found = self.holds(k, &path);
        let ghost l = self.listing();
        let ghost p = path@;
        let ghost kept = list_of(self.entries@);
        let mut v: Vec<(RelPath, V)> = Vec::new();
        std::mem::swap(&mut v, &mut self.entries);
        let prev = if found {
            let (_, x) = v.remove(k);
            Some(x)
        } else {
            None
        };
        v.insert(k, (path, value));
        proof {
            let n = list_of(v@);
            assert(n[k as int] == (p, value));
            assert forall|i: int| 0 <= i < k implies #[trigger] n[i] == l[i] by {}
            let shift = if found { 0int } else { 1int };
            assert(n.len() == l.len() + shift);
            assert forall|i: int| k < i < n.len() implies #[trigger] n[i] == l[i - shift] by {}
            if found {
                assert forall|i: int| k < i < l.len() implies order::text_lt(
                    p,
                    (#[trigger] l[i]).0,
                ) by {
                    assert(order::text_lt(l[k as int].0, l[i].0));
                }
            }
            assert(sorted(n)) by {
                assert forall|i: int, j: int| 0 <= i < j < n.len() implies order::text_lt(
                    #[trigger] n[i].0,
                    #[trigger] n[j].0,
                ) by {
                    if i < k && j > k {
                        assert(n[i] == l[i] && n[j] == l[j - shift]);
                        assert(order::text_lt(l[i].0, p));
                        assert(order::text_lt(p, l[j - shift].0));
                        order::text_order(l[i].0, p, l[j - shift].0);
                    } else if i > k {
                        assert(n[i] == l[i - shift] && n[j] == l[j - shift]);
                    }
                }
            }
            listed(n, k as int);
            assert forall|q: Seq<char>| q != p implies lists(n, q) == lists(l, q) && (lists(n, q)
                ==> to_map(n)[q] == to_map(l)[q]) by {
                if lists(n, q) {
                    let i = choose|i: int| 0 <= i < n.len() && #[trigger] n[i].0 == q;
                    let o = if i < k { i } else { i - shift };
                    assert(n[i] == l[o]);
                    listed(n, i);
                    listed(l, o);
                }
                if lists(l, q) {
                    let i = choose|i: int| 0 <= i < l.len() && #[trigger] l[i].0 == q;
                    let o = if i < k { i } else { i + shift };
                    assert(n[o] == l[i]);
                }
            }
            assert(to_map(n) =~= to_map(l).insert(p, value));
        }
        self.entries = v;
        prev
    }

    /// Take out the value for `path`, if any.
    pub fn remove(&mut self, path: &RelPath) -> (prev: Option<V>)
        ensures
            final(self)@ == old(self)@.remove(path@),
            sorted(final(self).listing()),
            match prev {
                Some(x) => old(self)@.dom().contains(path@) && x == old(self)@[path@],
                None => !old(self)@.dom().contains(path@),
            },
    {
        let k: usize = self.position(path);
        if !self.holds(k, path) {
            assert(self@ =~= old(self)@.remove(path@));
            return None;
        }
        let ghost l = self.listing();
        let ghost p = path@;
        let mut v: Vec<(RelPath, V)> = Vec::new();
        std::mem::swap(&mut v, &mut self.entries);
        let (_, x) = v.remove(k);
        proof {
            let n = list_of(v@);
            assert forall|i: int| 0 <= i < n.len() implies #[trigger] n[i] == if i < k {
                l[i]
            } else {
                l[i + 1]
            } by {}
            assert(sorted(n));
            assert forall|q: Seq<char>| lists(n, q) == (lists(l, q) && q != p) && (lists(n, q)
                ==> to_map(n)[q] == to_map(l)[q]) by {
                if lists(n, q) {
                    let i = choose|i: int| 0 <= i < n.len() && #[trigger] n[i].0 == q;
                    let o = if i < k { i } else { i + 1 };
                    assert(n[i] == l[o]);
                    listed(n, i);
                    listed(l, o);
                    listed(l, k as int);
                }
                if lists(l, q) && q != p {
                    let i = choose|i: int| 0 <= i < l.len() && #[trigger] l[i].0 == q;
                    let o = if i < k { i } else { i - 1 };
                    assert(n[o] == l[i]);
                }
            }
            assert(to_map(n) =~= to_map(l).remove(p));
        }
        self.entries = v;
        Some(x)
    }
}

} // verus!
