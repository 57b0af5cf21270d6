//! Vector clocks.

use tomo::clock::{Causality, ReplicaId, VectorClock};

const A: ReplicaId = ReplicaId(1);
const B: ReplicaId = ReplicaId(2);

#[test]
fn fresh_clocks_are_equal() {
    assert_eq!(
        VectorClock::new().compare(&VectorClock::new()),
        Causality::Equal
    );
}

#[test]
fn tick_establishes_happens_after() {
    let base = VectorClock::new();
    let mut later = base.clone();
    later.tick(A);
    assert_eq!(later.compare(&base), Causality::After);
    assert_eq!(base.compare(&later), Causality::Before);
}

#[test]
fn independent_ticks_are_concurrent() {
    let (mut x, mut y) = (VectorClock::new(), VectorClock::new());
    x.tick(A);
    y.tick(B);
    assert_eq!(x.compare(&y), Causality::Concurrent);
    assert_eq!(y.compare(&x), Causality::Concurrent);
}

#[test]
fn merge_dominates_both_inputs() {
    let (mut x, mut y) = (VectorClock::new(), VectorClock::new());
    x.tick(A);
    y.tick(B);
    let mut merged = x.clone();
    merged.merge(&y);
    assert_eq!(merged.compare(&x), Causality::After);
    assert_eq!(merged.compare(&y), Causality::After);
}

#[test]
fn merge_is_idempotent() {
    let mut x = VectorClock::new();
    x.tick(A);
    x.tick(B);
    let mut m = x.clone();
    m.merge(&x);
    assert_eq!(m.compare(&x), Causality::Equal);
}

#[test]
fn entries_are_listed_by_replica() {
    let mut x = VectorClock::new();
    x.tick(B);
    x.tick(A);
    x.tick(B);
    assert_eq!(x.iter(), vec![(A, 1), (B, 2)]);
    assert_eq!(x.get(ReplicaId(7)), 0);
    assert_eq!(VectorClock::from_pairs(&[(2, 2), (1, 1)]), x);
}

#[test]
fn merging_is_commutative() {
    let x = VectorClock::from_pairs(&[(1, 3), (2, 1)]);
    let y = VectorClock::from_pairs(&[(2, 4), (5, 1)]);
    let mut xy = x.clone();
    xy.merge(&y);
    let mut yx = y.clone();
    yx.merge(&x);
    assert_eq!(xy, yx);
    assert_eq!(xy, VectorClock::from_pairs(&[(1, 3), (2, 4), (5, 1)]));
}
