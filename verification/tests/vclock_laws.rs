use crdt_sss_rs::vclock::VClock;

fn clock(pairs: &[(&str, u64)]) -> VClock {
    let mut c = VClock::new();
    for (r, n) in pairs {
        c.0.insert(r.to_string(), *n);
    }
    c
}

#[test]
fn merge_max_takes_pointwise_maximum() {
    let mut a = clock(&[("A", 3), ("B", 1)]);
    let b = clock(&[("B", 4), ("C", 2)]);
    a.merge_max(&b);
    assert_eq!(a.get("A"), 3);
    assert_eq!(a.get("B"), 4);
    assert_eq!(a.get("C"), 2);
    assert_eq!(a.0.len(), 3);
}

#[test]
fn merge_max_is_commutative() {
    let mut ab = clock(&[("A", 3), ("B", 1)]);
    ab.merge_max(&clock(&[("B", 4), ("C", 2)]));
    let mut ba = clock(&[("B", 4), ("C", 2)]);
    ba.merge_max(&clock(&[("A", 3), ("B", 1)]));
    assert!(ab == ba);
}

#[test]
fn merge_max_is_associative() {
    let a = clock(&[("A", 3)]);
    let b = clock(&[("A", 1), ("B", 5)]);
    let c = clock(&[("C", 7), ("B", 6)]);
    let mut left = a.clone();
    left.merge_max(&b);
    left.merge_max(&c);
    let mut bc = b.clone();
    bc.merge_max(&c);
    let mut right = a.clone();
    right.merge_max(&bc);
    assert!(left == right);
}

#[test]
fn merge_max_is_idempotent() {
    let a = clock(&[("A", 3), ("B", 1)]);
    let mut aa = a.clone();
    aa.merge_max(&a);
    assert!(aa == a);
}

#[test]
fn merge_max_is_least_upper_bound() {
    let a = clock(&[("A", 3)]);
    let b = clock(&[("B", 2)]);
    let mut j = a.clone();
    j.merge_max(&b);
    assert!(a.less_equal(&j));
    assert!(b.less_equal(&j));
    let c = clock(&[("A", 3), ("B", 2), ("C", 9)]);
    assert!(j.less_equal(&c));
    let d = clock(&[("A", 3), ("B", 1)]);
    assert!(!j.less_equal(&d));
}

#[test]
fn less_equal_reflexive_and_transitive() {
    let a = clock(&[("A", 1)]);
    let b = clock(&[("A", 2)]);
    let c = clock(&[("A", 2), ("B", 1)]);
    assert!(a.less_equal(&a));
    assert!(a.less_equal(&b) && b.less_equal(&c) && a.less_equal(&c));
    assert!(!c.less_equal(&b));
}

#[test]
fn less_equal_counts_missing_replicas_as_zero() {
    let zero = clock(&[("A", 0)]);
    let empty = VClock::default();
    assert!(zero.less_equal(&empty));
    assert!(empty.less_equal(&zero));
    assert!(!(zero == empty));
}

#[test]
fn concurrent_is_symmetric_and_irreflexive() {
    let a = clock(&[("A", 1)]);
    let b = clock(&[("B", 1)]);
    assert!(a.concurrent(&b) && b.concurrent(&a));
    assert!(!a.concurrent(&a));
    let c = clock(&[("A", 1), ("B", 1)]);
    assert!(!a.concurrent(&c));
}

#[test]
fn inc_strictly_advances() {
    let old = clock(&[("A", 4), ("B", 2)]);
    let mut new = old.clone();
    new.inc("B");
    assert_eq!(new.get("B"), 3);
    assert_eq!(new.get("A"), 4);
    assert!(old.less_equal(&new));
    assert!(!new.less_equal(&old));
}

#[test]
fn equality_ignores_entry_order() {
    let a = clock(&[("A", 1), ("B", 2)]);
    let b = clock(&[("B", 2), ("A", 1)]);
    assert!(a == b);
    assert!(!(a == clock(&[("A", 1), ("B", 3)])));
    assert!(!(a == clock(&[("A", 1)])));
}
