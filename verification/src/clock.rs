//! Vector clocks: the only ordering authority.
//!
//! Wall-clock time never orders anything. Comparing two clocks yields a
//! [`Causality`], and `Concurrent` is what makes something a conflict.
//!
//! A clock is modelled by the sequence of its `(replica, counter)` pairs in
//! ascending replica order; a replica that is not listed counts as zero.

use vstd::prelude::*;

verus! {

/// Stable identifier for a replica (a machine participating in a sync pair).
#[derive(Debug, Clone, Copy, PartialEq, Eq, PartialOrd, Ord, Hash, Structural)]
pub struct ReplicaId(pub u64);

/// Result of comparing two vector clocks.
#[derive(Debug, Clone, Copy, PartialEq, Eq, Structural)]
pub enum Causality {
    /// The clocks are identical: same version, nothing to do.
    Equal,
    /// Self happened strictly before other: fast-forward to other.
    Before,
    /// Self happened strictly after other: other is stale.
    After,
    /// Neither dominates: a true conflict that a deterministic tiebreak decides.
    Concurrent,
}

/// A vector clock: per-replica logical counters.
#[derive(Debug, PartialEq, Eq)]
pub struct VectorClock {
    counters: Vec<(u64, u64)>,
}

impl View for VectorClock {
    type V = Seq<(u64, u64)>;

    closed spec fn view(&self) -> Seq<(u64, u64)> {
        self.counters@
    }
}

/// Pairs in strictly ascending replica order: what a clock lists.
pub open spec fn is_clock(s: Seq<(u64, u64)>) -> bool {
    forall|i: int, j: int| 0 <= i < j < s.len() ==> #[trigger] s[i].0 < #[trigger] s[j].0
}

/// Whether `s` lists replica `r`.
pub open spec fn mentions(s: Seq<(u64, u64)>, r: u64) -> bool {
    exists|i: int| 0 <= i < s.len() && #[trigger] s[i].0 == r
}

/// The counter that `s` lists for replica `r`, zero if it lists none.
pub open spec fn count(s: Seq<(u64, u64)>, r: u64) -> u64 {
    if mentions(s, r) {
        s[choose|i: int| 0 <= i < s.len() && #[trigger] s[i].0 == r].1
    } else {
        0
    }
}

/// The clock as a map from the replicas it lists to their counters.
pub open spec fn counts(s: Seq<(u64, u64)>) -> Map<u64, u64> {
    Map::new(|r: u64| mentions(s, r), |r: u64| count(s, r))
}

/// `t` is what [`VectorClock::tick`] makes of `a` at replica `r`.
pub open spec fn is_tick(t: Seq<(u64, u64)>, a: Seq<(u64, u64)>, r: u64) -> bool {
    is_clock(t) && counts(t) == counts(a).insert(r, (count(a, r) + 1) as u64)
}

/// No counter of `a` is above the one in `b`.
pub open spec fn leq(a: Seq<(u64, u64)>, b: Seq<(u64, u64)>) -> bool {
    forall|r: u64| #[trigger] count(a, r) <= count(b, r)
}

/// How `a` relates to `b` causally.
pub open spec fn causality(a: Seq<(u64, u64)>, b: Seq<(u64, u64)>) -> Causality {
    if leq(a, b) {
        if leq(b, a) {
            Causality::Equal
        } else {
            Causality::Before
        }
    } else if leq(b, a) {
        Causality::After
    } else {
        Causality::Concurrent
    }
}

/// `a` happened strictly before `b`.
pub open spec fn before(a: Seq<(u64, u64)>, b: Seq<(u64, u64)>) -> bool {
    leq(a, b) && !leq(b, a)
}

/// The larger of two counters.
pub open spec fn larger(x: u64, y: u64) -> u64 {
    if x < y {
        y
    } else {
        x
    }
}

/// The pointwise maximum of two clocks.
pub open spec fn merged(a: Seq<(u64, u64)>, b: Seq<(u64, u64)>) -> Map<u64, u64> {
    Map::new(
        |r: u64| mentions(a, r) || mentions(b, r),
        |r: u64| larger(count(a, r), count(b, r)),
    )
}

/// The counter at a listed position is the replica's count.
pub proof fn count_at(s: Seq<(u64, u64)>, i: int)
    requires
        is_clock(s),
        0 <= i < s.len(),
    ensures
        mentions(s, s[i].0),
        count(s, s[i].0) == s[i].1,
{
    let r = s[i].0;
    assert(mentions(s, r));
    let k = choose|k: int| 0 <= k < s.len() && #[trigger] s[k].0 == r;
    assert(k == i);
}

/// Equal counts are equal clocks: the listing is determined by the map.
pub proof fn counts_determine_clock(a: Seq<(u64, u64)>, b: Seq<(u64, u64)>)
    requires
        is_clock(a),
        is_clock(b),
        counts(a) == counts(b),
    ensures
        a == b,
    decreases a.len(),
{
    if a.len() == 0 {
        if b.len() > 0 {
            count_at(b, 0);
            assert(counts(b).dom().contains(b[0].0));
        }
        assert(a =~= b);
    } else {
        let n = a.len() - 1;
        count_at(a, n);
        assert(counts(a).dom().contains(a[n].0));
        assert(mentions(b, a[n].0));
        let m = b.len() - 1;
        count_at(b, m);
        assert(counts(b).dom().contains(b[m].0));
        assert(mentions(a, b[m].0));
        let ka = choose|k: int| 0 <= k < b.len() && #[trigger] b[k].0 == a[n].0;
        let kb = choose|k: int| 0 <= k < a.len() && #[trigger] a[k].0 == b[m].0;
        assert(a[n].0 <= b[m].0) by {
            if ka < m {
                assert(b[ka].0 < b[m].0);
            }
        }
        assert(b[m].0 <= a[n].0) by {
            if kb < n {
                assert(a[kb].0 < a[n].0);
            }
        }
        assert(counts(a)[a[n].0] == counts(b)[b[m].0]);
        assert(a.last() == b.last());
        drop_last_counts(a);
        drop_last_counts(b);
        counts_determine_clock(a.drop_last(), b.drop_last());
        assert(a =~= a.drop_last().push(a.last()));
        assert(b =~= b.drop_last().push(b.last()));
    }
}

proof fn drop_last_counts(a: Seq<(u64, u64)>)
    requires
        is_clock(a),
        a.len() > 0,
    ensures
        is_clock(a.drop_last()),
        counts(a.drop_last()) == counts(a).remove(a.last().0),
{
    let p = a.drop_last();
    let last = a.last().0;
    assert(is_clock(p)) by {
        assert forall|i: int, j: int| 0 <= i < j < p.len() implies #[trigger] p[i].0
            < #[trigger] p[j].0 by {
            assert(a[i].0 < a[j].0);
        }
    }
    assert forall|r: u64| mentions(p, r) <==> (mentions(a, r) && r != last) by {
        if mentions(p, r) {
            let i = choose|i: int| 0 <= i < p.len() && #[trigger] p[i].0 == r;
            assert(a[i].0 == r);
            assert(a[i].0 < a[a.len() - 1].0);
        }
        if mentions(a, r) && r != last {
            let i = choose|i: int| 0 <= i < a.len() && #[trigger] a[i].0 == r;
            assert(p[i].0 == r);
        }
    }
    assert forall|r: u64| mentions(p, r) implies count(p, r) == count(a, r) by {
        let i = choose|i: int| 0 <= i < p.len() && #[trigger] p[i].0 == r;
        count_at(p, i);
        count_at(a, i);
        assert(a[i] == p[i]);
    }
    assert(counts(p) =~= counts(a).remove(last));
}

/// Set replica `r`'s counter to `c`, keeping the order.
fn put(v: &mut Vec<(u64, u64)>, r: u64, c: u64)
    requires
        is_clock(old(v)@),
    ensures
        is_clock(final(v)@),
        counts(final(v)@) == counts(old(v)@).insert(r, c),
        forall|q: u64| #[trigger] count(final(v)@, q) == if q == r { c } else { count(old(v)@, q) },
{
    let mut i: usize = 0;
    while i < v.len() && v[i].0 < r
        invariant
            i <= v@.len(),
            v@ == old(v)@,
            forall|j: int| 0 <= j < i ==> (#[trigger] v@[j]).0 < r,
        decreases v@.len() - i,
    {
        i = i + 1;
    }
    let ghost before = v@;
    if i < v.len() && v[i].0 == r {
        v.set(i, (r, c));
    } else {
        assert(forall|j: int| i <= j < before.len() ==> (#[trigger] before[j]).0 > r) by {
            if i < before.len() {
                assert forall|j: int| i <= j < before.len() implies (#[trigger] before[j]).0
                    > r by {
                    assert(before[i as int].0 <= before[j].0);
                }
            }
        }
        v.insert(i, (r, c));
    }
    let ghost after = v@;
    proof {
        let replaced = i < before.len() && before[i as int].0 == r;
        assert(is_clock(after)) by {
            assert forall|x: int, y: int| 0 <= x < y < after.len() implies #[trigger] after[x].0
                < #[trigger] after[y].0 by {
                if replaced {
                    assert(after[x].0 == before[x].0 && after[y].0 == before[y].0);
                } else {
                    let bx = if x > i { x - 1 } else { x };
                    let by = if y > i { y - 1 } else { y };
                    if x != i {
                        assert(after[x] == before[bx]);
                    }
                    if y != i {
                        assert(after[y] == before[by]);
                    }
                }
            }
        }
        assert(after[i as int] == (r, c));
        count_at(after, i as int);
        assert forall|q: u64| q != r implies mentions(after, q) == mentions(before, q) && count(
            after,
            q,
        ) == count(before, q) by {
            if mentions(before, q) {
                let k = choose|k: int| 0 <= k < before.len() && #[trigger] before[k].0 == q;
                let k2 = if replaced || k < i { k } else { k + 1 };
                assert(after[k2] == before[k]);
                count_at(before, k);
                count_at(after, k2);
            }
            if mentions(after, q) {
                let k = choose|k: int| 0 <= k < after.len() && #[trigger] after[k].0 == q;
                let k2 = if replaced || k < i { k } else { k - 1 };
                assert(before[k2] == after[k]);
            }
        }
        assert(counts(after) =~= counts(before).insert(r, c));
    }
}

impl VectorClock {
    /// A clock lists its replicas in ascending order.
    #[verifier::type_invariant]
    pub open spec fn wf(self) -> bool {
        is_clock(self@)
    }

    /// An empty clock (all counters implicitly zero).
    pub fn new() -> (c: Self)
        ensures
            c@ == Seq::<(u64, u64)>::empty(),
    {
        VectorClock { counters: Vec::new() }
    }

    /// Record a local event at `replica`, incrementing its counter.
    pub fn tick(&mut self, replica: ReplicaId)
        requires
            count(old(self)@, replica.0) < u64::MAX,
        ensures
            is_tick(final(self)@, old(self)@, replica.0),
    {
        proof {
            use_type_invariant(&*self);
        }
        let next: u64 = self.get(replica) + 1;
        let mut v: Vec<(u64, u64)> = Vec::new();
        std::mem::swap(&mut v, &mut self.counters);
        put(&mut v, replica.0, next);
        self.counters = v;
    }

    /// The counter for `replica` (zero if never ticked).
    pub fn get(&self, replica: ReplicaId) -> (c: u64)
        ensures
            c == count(self@, replica.0),
    {
        proof {
            use_type_invariant(self);
        }
        let mut i: usize = 0;
        while i < self.counters.len()
            invariant
                i <= self.counters@.len(),
                is_clock(self@),
                self@ == self.counters@,
                forall|j: int| 0 <= j < i ==> (#[trigger] self@[j]).0 != replica.0,
            decreases self.counters@.len() - i,
        {
            if self.counters[i].0 == replica.0 {
                proof {
                    count_at(self@, i as int);
                }
                return self.counters[i].1;
            }
            i = i + 1;
        }
        0
    }

    /// The listed `(replica, counter)` pairs, ascending by replica.
    pub fn iter(&self) -> (pairs: Vec<(ReplicaId, u64)>)
        ensures
            is_clock(self@),
            pairs@.len() == self@.len(),
            forall|i: int| 0 <= i < pairs@.len() ==> pairs@[i] == (ReplicaId(self@[i].0), self@[i].1),
    {
        proof {
            use_type_invariant(self);
        }
        let mut pairs: Vec<(ReplicaId, u64)> = Vec::new();
        let mut i: usize = 0;
        while i < self.counters.len()
            invariant
                i <= self.counters@.len(),
                self@ == self.counters@,
                pairs@.len() == i,
                forall|j: int| 0 <= j < i ==> pairs@[j] == (ReplicaId(self@[j].0), self@[j].1),
            decreases self.counters@.len() - i,
        {
            pairs.push((ReplicaId(self.counters[i].0), self.counters[i].1));
            i = i + 1;
        }
        pairs
    }

    /// The clock that listing `pairs` one after the other builds: a later pair
    /// for a replica replaces an earlier one.
    pub fn from_pairs(pairs: &[(u64, u64)]) -> (c: Self)
        ensures
            is_clock(c@),
            counts(c@) == inserted(pairs@),
    {
        let mut v: Vec<(u64, u64)> = Vec::new();
        let mut i: usize = 0;
        assert(counts(v@) =~= inserted(pairs@.take(0)));
        while i < pairs.len()
            invariant
                i <= pairs@.len(),
                is_clock(v@),
                counts(v@) == inserted(pairs@.take(i as int)),
            decreases pairs@.len() - i,
        {
            put(&mut v, pairs[i].0, pairs[i].1);
            i = i + 1;
            assert(pairs@.take(i as int).drop_last() =~= pairs@.take(i - 1));
        }
        assert(pairs@.take(i as int) =~= pairs@);
        VectorClock { counters: v }
    }

    /// Merge `other` into self (pointwise max). Used when applying a remote
    /// version that was accepted.
    pub fn merge(&mut self, other: &Self)
        ensures
            is_clock(final(self)@),
            counts(final(self)@) == merged(old(self)@, other@),
            forall|r: u64| #[trigger]
                count(final(self)@, r) == larger(count(old(self)@, r), count(other@, r)),
    {
        proof {
            use_type_invariant(&*self);
            use_type_invariant(other);
        }
        let ghost start = self@;
        let mut v: Vec<(u64, u64)> = Vec::new();
        std::mem::swap(&mut v, &mut self.counters);
        let mut i: usize = 0;
        proof {
            assert(other@.take(0) =~= Seq::<(u64, u64)>::empty());
            assert(counts(v@) =~= merged(start, other@.take(0)));
        }
        while i < other.counters.len()
            invariant
                i <= other.counters@.len(),
                other@ == other.counters@,
                is_clock(v@),
                is_clock(start),
                is_clock(other@),
                counts(v@) == merged(start, other@.take(i as int)),
                forall|r: u64| #[trigger]
                    count(v@, r) == larger(count(start, r), count(other@.take(i as int), r)),
            decreases other.counters@.len() - i,
        {
            let (r, c) = other.counters[i];
            let ghost done = other@.take(i as int);
            let ghost next = other@.take(i + 1);
            proof {
                merge_step(start, other@, i as int);
                assert(!mentions(done, r)) by {
                    if mentions(done, r) {
                        let k = choose|k: int| 0 <= k < done.len() && #[trigger] done[k].0 == r;
                        assert(other@[k].0 < other@[i as int].0);
                    }
                }
                assert(count(v@, r) == count(start, r));
            }
            let have: u64 = lookup(&v, r);
            if c > have {
                put(&mut v, r, c);
            } else {
                put(&mut v, r, have);
            }
            proof {
                assert(counts(v@) =~= merged(start, next));
            }
            i = i + 1;
        }
        proof {
            assert(other@.take(i as int) =~= other@);
        }
        self.counters = v;
    }

    /// Compare against `other`.
    pub fn compare(&self, other: &Self) -> (c: Causality)
        ensures
            c == causality(self@, other@),
    {
        proof {
            use_type_invariant(self);
            use_type_invariant(other);
        }
        let self_ahead = ahead(self, other);
        let other_ahead = ahead(other, self);
        match (self_ahead, other_ahead) {
            (false, false) => Causality::Equal,
            (false, true) => Causality::Before,
            (true, false) => Causality::After,
            (true, true) => Causality::Concurrent,
        }
    }
}

impl Clone for VectorClock {
    fn clone(&self) -> (c: Self)
        ensures
            c@ == self@,
    {
        proof {
            use_type_invariant(self);
        }
        let mut v: Vec<(u64, u64)> = Vec::new();
        let mut i: usize = 0;
        while i < self.counters.len()
            invariant
                i <= self.counters@.len(),
                v@ == self.counters@.take(i as int),
            decreases self.counters@.len() - i,
        {
            v.push(self.counters[i]);
            i = i + 1;
            assert(self.counters@.take(i as int) =~= self.counters@.take(i - 1).push(
                self.counters@[i - 1],
            ));
        }
        assert(self.counters@.take(i as int) =~= self.counters@);
        VectorClock { counters: v }
    }
}

impl Default for VectorClock {
    fn default() -> (c: Self)
        ensures
            c@ == Seq::<(u64, u64)>::empty(),
    {
        VectorClock::new()
    }
}

/// The map that inserting the pairs in order builds.
pub open spec fn inserted(pairs: Seq<(u64, u64)>) -> Map<u64, u64>
    decreases pairs.len(),
{
    if pairs.len() == 0 {
        Map::empty()
    } else {
        inserted(pairs.drop_last()).insert(pairs.last().0, pairs.last().1)
    }
}

/// Inserting a clock's own pairs builds its own map.
pub proof fn inserted_clock(s: Seq<(u64, u64)>)
    requires
        is_clock(s),
    ensures
        inserted(s) == counts(s),
    decreases s.len(),
{
    if s.len() == 0 {
        assert(inserted(s) =~= counts(s));
    } else {
        drop_last_counts(s);
        inserted_clock(s.drop_last());
        count_at(s, s.len() - 1);
        assert(inserted(s) =~= counts(s));
    }
}

fn lookup(v: &Vec<(u64, u64)>, r: u64) -> (c: u64)
    requires
        is_clock(v@),
    ensures
        c == count(v@, r),
{
    let mut i: usize = 0;
    while i < v.len()
        invariant
            i <= v@.len(),
            is_clock(v@),
            forall|j: int| 0 <= j < i ==> (#[trigger] v@[j]).0 != r,
        decreases v@.len() - i,
    {
        if v[i].0 == r {
            proof {
                count_at(v@, i as int);
            }
            return v[i].1;
        }
        i = i + 1;
    }
    0
}

proof fn merge_step(start: Seq<(u64, u64)>, other: Seq<(u64, u64)>, i: int)
    requires
        is_clock(other),
        0 <= i < other.len(),
    ensures
        forall|q: u64| #[trigger]
            mentions(other.take(i + 1), q) == (mentions(other.take(i), q) || q == other[i].0),
        forall|q: u64| #[trigger]
            count(other.take(i + 1), q) == if q == other[i].0 {
                other[i].1
            } else {
                count(other.take(i), q)
            },
{
    let done = other.take(i);
    let next = other.take(i + 1);
    assert(next.drop_last() =~= done);
    assert(is_clock(next)) by {
        assert forall|x: int, y: int| 0 <= x < y < next.len() implies #[trigger] next[x].0
            < #[trigger] next[y].0 by {
            assert(other[x].0 < other[y].0);
        }
    }
    drop_last_counts(next);
    count_at(next, i);
    assert forall|q: u64| #[trigger] mentions(next, q) == (mentions(done, q) || q == other[i].0) by {
        assert(counts(done).dom().contains(q) == (counts(next).dom().contains(q) && q
            != other[i].0));
    }
    assert forall|q: u64| #[trigger] count(next, q) == if q == other[i].0 {
        other[i].1
    } else {
        count(done, q)
    } by {
        if q != other[i].0 && mentions(done, q) {
            assert(counts(done)[q] == counts(next)[q]);
        }
    }
}

/// Whether some counter of `a` is above the one in `b`.
fn ahead(a: &VectorClock, b: &VectorClock) -> (r: bool)
    requires
        is_clock(a@),
        is_clock(b@),
    ensures
        r == !leq(a@, b@),
{
    let mut i: usize = 0;
    while i < a.counters.len()
        invariant
            i <= a.counters@.len(),
            a@ == a.counters@,
            is_clock(a@),
            forall|j: int| 0 <= j < i ==> (#[trigger] a@[j]).1 <= count(b@, a@[j].0),
        decreases a.counters@.len() - i,
    {
        let (r, c) = a.counters[i];
        proof {
            count_at(a@, i as int);
        }
        if c > b.get(ReplicaId(r)) {
            assert(count(a@, r) > count(b@, r));
            return true;
        }
        i = i + 1;
    }
    assert forall|r: u64| #[trigger] count(a@, r) <= count(b@, r) by {
        if mentions(a@, r) {
            let k = choose|k: int| 0 <= k < a@.len() && #[trigger] a@[k].0 == r;
            assert(a@[k].1 <= count(b@, a@[k].0));
        }
    }
    false
}

/// A tick adds one to its replica's counter and keeps the others.
pub proof fn tick_counts(t: Seq<(u64, u64)>, a: Seq<(u64, u64)>, r: u64)
    requires
        is_tick(t, a, r),
    ensures
        forall|q: u64| #[trigger]
            count(t, q) == if q == r {
                (count(a, q) + 1) as u64
            } else {
                count(a, q)
            },
{
    assert forall|q: u64| #[trigger] count(t, q) == if q == r {
        (count(a, q) + 1) as u64
    } else {
        count(a, q)
    } by {
        assert(counts(t).dom().contains(q) == (mentions(a, q) || q == r));
        if mentions(t, q) {
            assert(counts(t)[q] == count(t, q));
        }
    }
}

/// `m` is what [`VectorClock::merge`] makes of `a` and `b`.
pub open spec fn is_merge(m: Seq<(u64, u64)>, a: Seq<(u64, u64)>, b: Seq<(u64, u64)>) -> bool {
    is_clock(m) && counts(m) == merged(a, b)
}

/// Every listed counter is positive: what ticking and merging produce.
pub open spec fn positive(s: Seq<(u64, u64)>) -> bool {
    forall|i: int| 0 <= i < s.len() ==> (#[trigger] s[i]).1 > 0
}

/// A merge has the larger of the two counters everywhere.
pub proof fn merge_counts(m: Seq<(u64, u64)>, a: Seq<(u64, u64)>, b: Seq<(u64, u64)>)
    requires
        is_merge(m, a, b),
    ensures
        forall|r: u64| #[trigger] count(m, r) == larger(count(a, r), count(b, r)),
{
    assert forall|r: u64| #[trigger] count(m, r) == larger(count(a, r), count(b, r)) by {
        assert(counts(m).dom().contains(r) == merged(a, b).dom().contains(r));
        if mentions(m, r) {
            assert(counts(m)[r] == merged(a, b)[r]);
        }
    }
}

/// Law: happening-before-or-at is reflexive.
pub proof fn leq_reflexive(a: Seq<(u64, u64)>)
    ensures
        leq(a, a),
        causality(a, a) == Causality::Equal,
{
}

/// Law: happening-before-or-at is transitive, and a strict step anywhere makes
/// the whole chain strict.
pub proof fn leq_transitive(a: Seq<(u64, u64)>, b: Seq<(u64, u64)>, c: Seq<(u64, u64)>)
    requires
        leq(a, b),
        leq(b, c),
    ensures
        leq(a, c),
        before(a, b) || before(b, c) ==> before(a, c),
{
    assert forall|r: u64| #[trigger] count(a, r) <= count(c, r) by {
        assert(count(a, r) <= count(b, r));
        assert(count(b, r) <= count(c, r));
    }
    if leq(c, a) {
        assert forall|r: u64| #[trigger] count(b, r) <= count(a, r) by {
            assert(count(b, r) <= count(c, r));
            assert(count(c, r) <= count(a, r));
        }
        assert forall|r: u64| #[trigger] count(c, r) <= count(b, r) by {
            assert(count(c, r) <= count(a, r));
            assert(count(a, r) <= count(b, r));
        }
    }
}

/// Law: swapping the operands mirrors the comparison.
pub proof fn compare_mirrored(a: Seq<(u64, u64)>, b: Seq<(u64, u64)>)
    ensures
        causality(a, b) == Causality::Equal <==> causality(b, a) == Causality::Equal,
        causality(a, b) == Causality::Before <==> causality(b, a) == Causality::After,
        causality(a, b) == Causality::Concurrent <==> causality(b, a) == Causality::Concurrent,
{
}

/// Law: clocks with positive counters that compare equal are the same clock.
pub proof fn equal_clocks_are_identical(a: Seq<(u64, u64)>, b: Seq<(u64, u64)>)
    requires
        is_clock(a),
        is_clock(b),
        positive(a),
        positive(b),
        causality(a, b) == Causality::Equal,
    ensures
        a == b,
{
    assert forall|r: u64| #[trigger] mentions(a, r) == mentions(b, r) by {
        assert(count(a, r) == count(b, r)) by {
            assert(count(a, r) <= count(b, r));
            assert(count(b, r) <= count(a, r));
        }
        if mentions(a, r) {
            let i = choose|i: int| 0 <= i < a.len() && #[trigger] a[i].0 == r;
            count_at(a, i);
        }
        if mentions(b, r) {
            let i = choose|i: int| 0 <= i < b.len() && #[trigger] b[i].0 == r;
            count_at(b, i);
        }
    }
    assert forall|r: u64| #[trigger] count(a, r) == count(b, r) by {
        assert(count(a, r) <= count(b, r));
        assert(count(b, r) <= count(a, r));
    }
    assert(counts(a) =~= counts(b)) by {
        assert forall|r: u64| counts(a).dom().contains(r) == counts(b).dom().contains(r) by {
            assert(mentions(a, r) == mentions(b, r));
        }
    }
    counts_determine_clock(a, b);
}

/// Law: a tick moves a clock strictly forward.
pub proof fn tick_is_after(a: Seq<(u64, u64)>, t: Seq<(u64, u64)>, r: u64)
    requires
        count(a, r) < u64::MAX,
        is_tick(t, a, r),
    ensures
        causality(a, t) == Causality::Before,
        causality(t, a) == Causality::After,
{
    tick_counts(t, a, r);
    assert(leq(a, t)) by {
        assert forall|q: u64| #[trigger] count(a, q) <= count(t, q) by {}
    }
    assert(count(t, r) > count(a, r));
    assert(!leq(t, a));
}

/// Law: ticks of two different replicas on one clock are concurrent.
pub proof fn independent_ticks_concur(
    a: Seq<(u64, u64)>,
    t: Seq<(u64, u64)>,
    u: Seq<(u64, u64)>,
    r: u64,
    q: u64,
)
    requires
        r != q,
        count(a, r) < u64::MAX,
        count(a, q) < u64::MAX,
        is_tick(t, a, r),
        is_tick(u, a, q),
    ensures
        causality(t, u) == Causality::Concurrent,
{
    tick_counts(t, a, r);
    tick_counts(u, a, q);
    assert(count(t, r) > count(u, r));
    assert(count(u, q) > count(t, q));
}

/// Law: a merge dominates both inputs and is the least clock that does.
pub proof fn merge_is_least_upper_bound(
    m: Seq<(u64, u64)>,
    a: Seq<(u64, u64)>,
    b: Seq<(u64, u64)>,
    c: Seq<(u64, u64)>,
)
    requires
        is_merge(m, a, b),
    ensures
        leq(a, m),
        leq(b, m),
        leq(a, c) && leq(b, c) ==> leq(m, c),
{
    merge_counts(m, a, b);
    assert forall|r: u64| #[trigger] count(a, r) <= count(m, r) by {
        assert(count(m, r) == larger(count(a, r), count(b, r)));
    }
    assert forall|r: u64| #[trigger] count(b, r) <= count(m, r) by {
        assert(count(m, r) == larger(count(a, r), count(b, r)));
    }
    if leq(a, c) && leq(b, c) {
        assert forall|r: u64| #[trigger] count(m, r) <= count(c, r) by {
            assert(count(a, r) <= count(c, r));
            assert(count(b, r) <= count(c, r));
        }
    }
}

/// Law: merging is commutative.
pub proof fn merge_commutative(
    m: Seq<(u64, u64)>,
    n: Seq<(u64, u64)>,
    a: Seq<(u64, u64)>,
    b: Seq<(u64, u64)>,
)
    requires
        is_merge(m, a, b),
        is_merge(n, b, a),
    ensures
        m == n,
{
    assert(merged(a, b) =~= merged(b, a));
    counts_determine_clock(m, n);
}

/// Law: merging a clock into itself changes nothing.
pub proof fn merge_idempotent(m: Seq<(u64, u64)>, a: Seq<(u64, u64)>)
    requires
        is_clock(a),
        is_merge(m, a, a),
    ensures
        m == a,
{
    assert(merged(a, a) =~= counts(a));
    counts_determine_clock(m, a);
}

/// Law: merging is associative.
pub proof fn merge_associative(
    ab: Seq<(u64, u64)>,
    ab_c: Seq<(u64, u64)>,
    bc: Seq<(u64, u64)>,
    a_bc: Seq<(u64, u64)>,
    a: Seq<(u64, u64)>,
    b: Seq<(u64, u64)>,
    c: Seq<(u64, u64)>,
)
    requires
        is_merge(ab, a, b),
        is_merge(ab_c, ab, c),
        is_merge(bc, b, c),
        is_merge(a_bc, a, bc),
    ensures
        ab_c == a_bc,
{
    merge_counts(ab, a, b);
    merge_counts(bc, b, c);
    assert forall|r: u64| #[trigger] mentions(ab, r) == (mentions(a, r) || mentions(b, r)) by {
        assert(counts(ab).dom().contains(r) == merged(a, b).dom().contains(r));
    }
    assert forall|r: u64| #[trigger] mentions(bc, r) == (mentions(b, r) || mentions(c, r)) by {
        assert(counts(bc).dom().contains(r) == merged(b, c).dom().contains(r));
    }
    assert(merged(ab, c) =~= merged(a, bc));
    counts_determine_clock(ab_c, a_bc);
}

/// The listing with `r`'s counter set to `c`.
pub open spec fn with(s: Seq<(u64, u64)>, r: u64, c: u64) -> Seq<(u64, u64)>
    decreases s.len(),
{
    if s.len() == 0 || s.last().0 < r {
        s.push((r, c))
    } else if s.last().0 == r {
        s.drop_last().push((r, c))
    } else {
        with(s.drop_last(), r, c).push(s.last())
    }
}

/// The last pair of a listing adds its counter to the map.
proof fn last_counts(a: Seq<(u64, u64)>)
    requires
        is_clock(a),
        a.len() > 0,
    ensures
        counts(a) == counts(a.drop_last()).insert(a.last().0, a.last().1),
{
    drop_last_counts(a);
    count_at(a, a.len() - 1);
    let k = a.last().0;
    assert(counts(a).dom().contains(k) && counts(a)[k] == a.last().1);
    assert(counts(a) =~= counts(a).remove(k).insert(k, a.last().1));
}

/// Setting a counter in a listing sets it in the map.
pub proof fn listing_insert(s: Seq<(u64, u64)>, r: u64, c: u64)
    requires
        is_clock(s),
    ensures
        is_clock(with(s, r, c)),
        counts(with(s, r, c)) == counts(s).insert(r, c),
    decreases s.len(),
{
    let t = with(s, r, c);
    if s.len() == 0 || s.last().0 < r {
        assert(is_clock(t)) by {
            assert forall|i: int, j: int| 0 <= i < j < t.len() implies #[trigger] t[i].0
                < #[trigger] t[j].0 by {
                if j == s.len() && i < s.len() - 1 {
                    assert(s[i].0 < s[s.len() - 1].0);
                }
            }
        }
        drop_last_counts(t);
        assert(t.drop_last() =~= s);
        count_at(t, s.len() as int);
        assert(!mentions(s, r)) by {
            if mentions(s, r) {
                let k = choose|k: int| 0 <= k < s.len() && #[trigger] s[k].0 == r;
                if k < s.len() - 1 {
                    assert(s[k].0 < s[s.len() - 1].0);
                }
            }
        }
        assert(counts(t) =~= counts(s).insert(r, c));
    } else if s.last().0 == r {
        drop_last_counts(s);
        let p = s.drop_last();
        assert(is_clock(t)) by {
            assert forall|i: int, j: int| 0 <= i < j < t.len() implies #[trigger] t[i].0
                < #[trigger] t[j].0 by {
                assert(t[i].0 == s[i].0 && t[j].0 == s[j].0);
            }
        }
        last_counts(t);
        assert(t.drop_last() =~= p);
        assert(counts(t) =~= counts(s).insert(r, c));
    } else {
        let p = s.drop_last();
        drop_last_counts(s);
        listing_insert(p, r, c);
        let u = with(p, r, c);
        assert(is_clock(t)) by {
            assert forall|i: int, j: int| 0 <= i < j < t.len() implies #[trigger] t[i].0
                < #[trigger] t[j].0 by {
                if j == u.len() {
                    count_at(u, i);
                    assert(counts(u).dom().contains(u[i].0));
                    if u[i].0 != r {
                        assert(mentions(p, u[i].0));
                        let k = choose|k: int| 0 <= k < p.len() && #[trigger] p[k].0 == u[i].0;
                        assert(s[k].0 < s[s.len() - 1].0);
                    }
                }
            }
        }
        last_counts(t);
        last_counts(s);
        assert(t.drop_last() =~= u);
        assert(counts(t) =~= counts(s).insert(r, c));
    }
}

} // verus!
