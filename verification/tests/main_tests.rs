use crdt_sss_rs::crdt_set::RWSet;
use crdt_sss_rs::replica::Replica;
use crdt_sss_rs::vclock::VClock;
use std::time::{SystemTime, UNIX_EPOCH};

#[test]
fn test_send_and_receive_state() {
    let mut replica_1 = Replica::new("replica_A", RWSet::default());
    let mut replica_2 = Replica::new("replica_B", RWSet::default());

    replica_1.add("item1");
    let live = replica_1.live_clocks();
    replica_2.receive_state(&live, &replica_1.rset.frontier, &replica_1.rset);

    assert!(replica_2.rset.items.contains_key("item1"));
}

#[test]
fn test_gc_ttl_in_replica() {
    let mut replica = Replica::new("replica_A", RWSet::default());

    replica.add("item1");
    replica.remove("item1");

    let now = SystemTime::now().duration_since(UNIX_EPOCH).unwrap().as_secs();
    let mut state = replica.rset.items.get("item1").unwrap().clone();
    state.last.wall_time = now - 10;
    replica.rset.items.insert("item1".to_string(), state);

    replica.gc_ttl(5);

    assert!(!replica.rset.items.contains_key("item1"));
}

#[test]
fn test_vclock_inc() {
    let mut vclock = VClock::default();
    vclock.inc("replica_A");

    assert_eq!(vclock.0.get("replica_A").unwrap(), &1);
}

#[test]
fn test_vclock_merge() {
    let mut vclock_1 = VClock::default();
    let mut vclock_2 = VClock::default();

    vclock_1.inc("replica_A");
    vclock_2.inc("replica_B");

    vclock_1.merge_max(&vclock_2);

    assert_eq!(vclock_1.0.get("replica_A").unwrap(), &1);
    assert_eq!(vclock_1.0.get("replica_B").unwrap(), &1);
}

#[test]
fn test_vclock_less_equal() {
    let mut vclock_1 = VClock::default();
    let mut vclock_2 = VClock::default();

    vclock_1.inc("replica_A");
    vclock_2.inc("replica_A");

    assert!(vclock_1.less_equal(&vclock_2));
}

#[test]
fn test_vclock_concurrent() {
    let mut vclock_1 = VClock::default();
    let mut vclock_2 = VClock::default();

    vclock_1.inc("replica_A");
    vclock_2.inc("replica_B");

    assert!(vclock_1.concurrent(&vclock_2));
}
