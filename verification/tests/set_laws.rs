use crdt_sss_rs::crdt_set::{ItemState, Op, OpKind, RWSet};
use crdt_sss_rs::replica::Replica;
use crdt_sss_rs::str_map::StrMap;
use crdt_sss_rs::vclock::VClock;

fn clock(pairs: &[(&str, u64)]) -> VClock {
    let mut c = VClock::new();
    for (r, n) in pairs {
        c.0.insert(r.to_string(), *n);
    }
    c
}

fn op(kind: OpKind, t: u64, pairs: &[(&str, u64)]) -> Op {
    Op { kind, wall_time: t, vclock: clock(pairs) }
}

fn ids(s: &RWSet) -> Vec<String> {
    (0..s.items.len()).map(|i| s.items.key_at(i).clone()).collect()
}

fn kind_of(s: &RWSet, id: &str) -> OpKind {
    s.items.get(id).unwrap().last.kind
}

#[test]
fn first_operation_is_recorded_and_joins_the_frontier() {
    let mut s = RWSet::default();
    s.apply("x", op(OpKind::Add, 1, &[("A", 5)]));
    assert_eq!(kind_of(&s, "x"), OpKind::Add);
    assert!(s.frontier == clock(&[("A", 5)]));
}

#[test]
fn newer_operation_replaces_and_grows_frontier() {
    let mut s = RWSet::default();
    s.apply("x", op(OpKind::Add, 1, &[("A", 1)]));
    s.apply("x", op(OpKind::Remove, 2, &[("A", 2)]));
    assert_eq!(kind_of(&s, "x"), OpKind::Remove);
    assert_eq!(s.items.get("x").unwrap().last.wall_time, 2);
    assert!(s.frontier == clock(&[("A", 2)]));
}

#[test]
fn equal_clocks_let_an_addition_replace_a_removal() {
    let mut s = RWSet::default();
    s.apply("x", op(OpKind::Remove, 1, &[("A", 1)]));
    s.apply("x", op(OpKind::Add, 9, &[("A", 1)]));
    assert_eq!(kind_of(&s, "x"), OpKind::Add);
    assert_eq!(s.items.get("x").unwrap().last.wall_time, 9);
}

#[test]
fn equal_clocks_keep_an_addition_against_a_removal() {
    let mut s = RWSet::default();
    s.apply("x", op(OpKind::Add, 1, &[("A", 1)]));
    s.apply("x", op(OpKind::Remove, 9, &[("A", 1)]));
    assert_eq!(kind_of(&s, "x"), OpKind::Add);
    assert_eq!(s.items.get("x").unwrap().last.wall_time, 1);
}

#[test]
fn equal_clocks_replace_the_same_kind() {
    let mut s = RWSet::default();
    s.apply("x", op(OpKind::Remove, 1, &[("A", 1)]));
    s.apply("x", op(OpKind::Remove, 9, &[("A", 1)]));
    assert_eq!(s.items.get("x").unwrap().last.wall_time, 9);
}

#[test]
fn concurrent_removal_does_not_replace_an_addition() {
    let mut s = RWSet::default();
    s.apply("x", op(OpKind::Add, 1, &[("A", 1)]));
    s.apply("x", op(OpKind::Remove, 1, &[("B", 1)]));
    assert_eq!(kind_of(&s, "x"), OpKind::Add);
    assert!(s.frontier == clock(&[("A", 1), ("B", 1)]));
}

#[test]
fn concurrent_addition_replaces_a_removal() {
    let mut s = RWSet::default();
    s.apply("x", op(OpKind::Remove, 1, &[("A", 1)]));
    s.apply("x", op(OpKind::Add, 2, &[("B", 1)]));
    assert_eq!(kind_of(&s, "x"), OpKind::Add);
    assert_eq!(s.items.get("x").unwrap().last.wall_time, 2);
    assert!(s.frontier == clock(&[("A", 1), ("B", 1)]));
}

#[test]
fn concurrent_removals_replace() {
    let mut s = RWSet::default();
    s.apply("x", op(OpKind::Remove, 1, &[("A", 1)]));
    s.apply("x", op(OpKind::Remove, 2, &[("B", 1)]));
    assert_eq!(s.items.get("x").unwrap().last.wall_time, 2);
}

#[test]
fn merge_order_does_not_change_which_ids_are_live() {
    let mut a = RWSet::default();
    a.apply("x", op(OpKind::Add, 1, &[("A", 1)]));
    let mut b = RWSet::default();
    b.apply("x", op(OpKind::Remove, 1, &[("B", 1)]));
    b.apply("y", op(OpKind::Add, 1, &[("B", 2)]));
    let mut ab = a.clone();
    ab.merge(&b);
    let mut ba = b.clone();
    ba.merge(&a);
    assert_eq!(kind_of(&ab, "x"), OpKind::Add);
    assert_eq!(kind_of(&ba, "x"), OpKind::Add);
    assert_eq!(kind_of(&ab, "y"), kind_of(&ba, "y"));
    assert_eq!(ab.items.len(), ba.items.len());
}

#[test]
fn concurrent_additions_keep_the_first() {
    let mut s = RWSet::default();
    s.apply("x", op(OpKind::Add, 1, &[("A", 1)]));
    s.apply("x", op(OpKind::Add, 2, &[("B", 1)]));
    assert!(s.items.get("x").unwrap().last.vclock == clock(&[("A", 1)]));
    assert!(s.frontier == clock(&[("A", 1), ("B", 1)]));
}

#[test]
fn stale_operation_is_ignored() {
    let mut s = RWSet::default();
    s.apply("x", op(OpKind::Add, 1, &[("A", 3)]));
    s.apply("x", op(OpKind::Remove, 2, &[("A", 2)]));
    assert_eq!(kind_of(&s, "x"), OpKind::Add);
    assert_eq!(s.items.get("x").unwrap().last.wall_time, 1);
}

#[test]
fn local_operations_tick_the_frontier() {
    let mut s = RWSet::default();
    s.add_at("A", "x", 100);
    assert!(s.items.get("x").unwrap().last.vclock == clock(&[("A", 1)]));
    assert_eq!(s.items.get("x").unwrap().last.wall_time, 100);
    assert!(s.frontier == clock(&[("A", 1)]));
    s.remove_at("A", "x", 150);
    assert!(s.items.get("x").unwrap().last.vclock == clock(&[("A", 2)]));
    assert_eq!(kind_of(&s, "x"), OpKind::Remove);
    assert!(s.frontier == clock(&[("A", 2)]));
    s.add_at("A", "y", 160);
    assert!(s.items.get("y").unwrap().last.vclock == clock(&[("A", 3)]));
    s.add_at("A", "x", 170);
    assert_eq!(kind_of(&s, "x"), OpKind::Add);
    assert!(s.items.get("x").unwrap().last.vclock == clock(&[("A", 4)]));
    assert!(s.frontier == clock(&[("A", 4)]));
    assert_eq!(ids(&s), vec!["x".to_string(), "y".to_string()]);
}

#[test]
fn add_is_stamped_with_the_clock() {
    let mut s = RWSet::default();
    s.add("A", "x");
    assert!(s.items.get("x").unwrap().last.wall_time > 1_600_000_000);
}

#[test]
fn gc_ttl_at_drops_only_expired_removals() {
    let mut s = RWSet::default();
    s.add_at("A", "old", 10);
    s.remove_at("A", "old", 10);
    s.add_at("A", "edge", 20);
    s.remove_at("A", "edge", 20);
    s.add_at("A", "live", 1);
    s.gc_ttl_at(80, 100);
    assert_eq!(ids(&s), vec!["edge".to_string(), "live".to_string()]);
    assert_eq!(kind_of(&s, "live"), OpKind::Add);
    s.gc_ttl_at(80, 101);
    assert_eq!(ids(&s), vec!["live".to_string()]);
}

#[test]
fn gc_ttl_keeps_live_items() {
    let mut s = RWSet::default();
    s.add("A", "a");
    s.add("A", "b");
    s.remove("A", "b");
    let before = s.live_ids();
    s.gc_ttl(0);
    assert_eq!(s.live_ids(), before);
    assert!(s.items.contains_key("a"));
}

#[test]
fn gc_ttl_keeps_a_removal_stamped_in_the_future() {
    let mut s = RWSet::default();
    s.add_at("A", "x", 1);
    s.remove_at("A", "x", u64::MAX);
    s.add_at("A", "y", 0);
    s.remove_at("A", "y", 0);
    s.gc_ttl(0);
    assert!(s.items.contains_key("x"));
    assert!(!s.items.contains_key("y"));
}

#[test]
fn merge_appends_new_ids_in_order_and_grows_frontier() {
    let mut a = RWSet::default();
    a.add_at("A", "x", 1);
    a.remove_at("A", "x", 2);
    let mut b = RWSet::default();
    b.add_at("B", "z", 1);
    b.add_at("B", "x", 1);
    b.remove_at("B", "x", 3);
    let f0 = a.frontier.clone();
    a.merge(&b);
    assert_eq!(ids(&a), vec!["x".to_string(), "z".to_string()]);
    assert!(f0.less_equal(&a.frontier));
    assert_eq!(kind_of(&a, "x"), OpKind::Remove);
}

#[test]
fn merging_own_copy_keeps_items() {
    let mut a = RWSet::default();
    a.add_at("A", "x", 1);
    a.add_at("A", "y", 1);
    a.remove_at("A", "y", 2);
    let copy = a.clone();
    a.merge(&copy);
    assert_eq!(ids(&a), ids(&copy));
    for id in ["x", "y"] {
        assert_eq!(kind_of(&a, id), kind_of(&copy, id));
        assert!(a.items.get(id).unwrap().last.vclock == copy.items.get(id).unwrap().last.vclock);
    }
}

#[test]
fn anti_entropy_lists_only_what_the_remote_lacks() {
    let mut s = RWSet::default();
    s.add_at("A", "known", 1);
    s.add_at("A", "unknown", 1);
    s.add_at("A", "newer", 1);
    s.add_at("A", "newer", 2);
    s.add_at("A", "newer", 3);
    let mut live: StrMap<VClock> = StrMap::new();
    live.insert("known".to_string(), VClock::default());
    live.insert("newer".to_string(), VClock::default());
    let frontier = clock(&[("A", 1)]);
    let missing = s.anti_entropy_verify(&live, &frontier);
    assert_eq!(missing.len(), 2);
    assert_eq!(missing[0].wall_time, 1);
    assert!(missing[0].vclock == clock(&[("A", 2)]));
    assert_eq!(missing[1].wall_time, 3);
    assert!(missing[1].vclock == clock(&[("A", 5)]));
    assert_eq!(ids(&s), vec!["known".to_string(), "unknown".to_string(), "newer".to_string()]);
}

#[test]
fn replica_lists_live_ids_and_clocks() {
    let mut r = Replica::new("A", RWSet::default());
    r.add("x");
    r.add("y");
    r.remove("x");
    assert_eq!(r.list(), vec!["y".to_string()]);
    let clocks = r.live_clocks();
    assert_eq!(clocks.len(), 1);
    assert!(clocks.get("y").unwrap() == &clock(&[("A", 2)]));
    let snap = r.snapshot();
    assert_eq!(snap.me, "A");
    assert_eq!(snap.rset.items.len(), 2);
}

#[test]
fn replica_receives_another_state() {
    let mut a = Replica::new("A", RWSet::default());
    let mut b = Replica::new("B", RWSet::default());
    a.add("x");
    b.add("y");
    b.receive_state(&a.live_clocks(), &a.rset.frontier, &a.rset);
    assert_eq!(b.list(), vec!["y".to_string(), "x".to_string()]);
}

#[test]
fn item_state_clone_keeps_the_operation() {
    let s = ItemState { last: op(OpKind::Remove, 4, &[("A", 2)]) };
    let c = s.clone();
    assert_eq!(c.last.kind, OpKind::Remove);
    assert_eq!(c.last.wall_time, 4);
    assert!(c.last.vclock == s.last.vclock);
}
