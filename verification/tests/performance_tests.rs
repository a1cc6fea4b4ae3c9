use crdt_sss_rs::crdt_set::RWSet;

// Every removal leaves a record of the item (see `test_remove_item`), which only
// garbage collection drops; so after adding and removing many items the set
// holds one removal record per item, and no item is live.
#[test]
fn test_performance_add_remove() {
    let mut rw_set = RWSet::default();

    for i in 0..1000 {
        let item_name = format!("item{}", i);
        rw_set.add("replica_A", &item_name);
        rw_set.remove("replica_A", &item_name);
    }

    assert_eq!(rw_set.items.len(), 1000);
    assert!(rw_set.live_ids().is_empty());
    assert_eq!(rw_set.frontier.get("replica_A"), 2000);
}
