use crdt_sss_rs::crdt_set::{OpKind, RWSet};
use crdt_sss_rs::str_map::StrMap;
use crdt_sss_rs::vclock::VClock;
use std::time::{SystemTime, UNIX_EPOCH};

#[test]
fn test_add_item() {
    let mut rw_set = RWSet::default();

    rw_set.add("replica_A", "item1");

    let item_state = rw_set.items.get("item1").unwrap();
    assert_eq!(item_state.last.kind, OpKind::Add);
}

#[test]
fn test_remove_item() {
    let mut rw_set = RWSet::default();

    rw_set.add("replica_A", "item1");
    rw_set.remove("replica_A", "item1");

    let item_state = rw_set.items.get("item1").unwrap();
    assert_eq!(item_state.last.kind, OpKind::Remove);
}

#[test]
fn test_merge_sets() {
    let mut set1 = RWSet::default();
    let mut set2 = RWSet::default();

    set1.add("replica_A", "item1");
    set2.add("replica_B", "item2");

    set1.merge(&set2);

    assert!(set1.items.contains_key("item1"));
    assert!(set1.items.contains_key("item2"));
}

#[test]
fn test_gc_ttl() {
    let mut rw_set = RWSet::default();
    let ttl = 5;

    rw_set.add("replica_A", "item1");
    rw_set.remove("replica_A", "item1");

    let now = SystemTime::now().duration_since(UNIX_EPOCH).unwrap().as_secs();
    let mut state = rw_set.items.get("item1").unwrap().clone();
    state.last.wall_time = now - 10;
    rw_set.items.insert("item1".to_string(), state);

    rw_set.gc_ttl(ttl);

    assert!(!rw_set.items.contains_key("item1"));
}

#[test]
fn test_anti_entropy_verify() {
    let mut rw_set_1 = RWSet::default();
    let mut rw_set_2 = RWSet::default();

    rw_set_1.add("replica_A", "item1");
    rw_set_2.add("replica_B", "item2");

    let mut remote_live = StrMap::new();
    remote_live.insert("item1".to_string(), VClock::default());

    let missing_ops = rw_set_2.anti_entropy_verify(&remote_live, &rw_set_1.frontier);

    assert!(missing_ops
        .iter()
        .any(|op| op.vclock == rw_set_2.items.get("item2").unwrap().last.vclock));
}
