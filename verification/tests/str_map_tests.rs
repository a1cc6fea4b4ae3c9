use crdt_sss_rs::str_map::StrMap;

fn keys<V>(m: &StrMap<V>) -> Vec<String> {
    (0..m.len()).map(|i| m.key_at(i).clone()).collect()
}

#[test]
fn insert_get_and_order() {
    let mut m: StrMap<u64> = StrMap::new();
    assert!(m.is_empty());
    m.insert("b".to_string(), 1);
    m.insert("a".to_string(), 2);
    m.insert("b".to_string(), 3);
    assert_eq!(m.len(), 2);
    assert_eq!(m.get("b"), Some(&3));
    assert_eq!(m.get("a"), Some(&2));
    assert_eq!(m.get("c"), None);
    assert!(m.contains_key("a"));
    assert!(!m.contains_key("c"));
    assert_eq!(keys(&m), vec!["b".to_string(), "a".to_string()]);
}

#[test]
fn remove_keeps_order_of_the_rest() {
    let mut m: StrMap<u64> = StrMap::new();
    for (i, k) in ["x", "y", "z"].iter().enumerate() {
        m.insert(k.to_string(), i as u64);
    }
    m.remove("y");
    m.remove("w");
    assert_eq!(keys(&m), vec!["x".to_string(), "z".to_string()]);
    assert_eq!(m.get("y"), None);
    assert_eq!(*m.value_at(1), 2);
    m.remove("x");
    m.remove("z");
    assert!(m.is_empty());
}

#[test]
fn clone_keeps_keys_and_values() {
    let mut m: StrMap<u64> = StrMap::new();
    m.insert("p".to_string(), 7);
    m.insert("q".to_string(), 8);
    let c = m.clone();
    assert_eq!(keys(&c), keys(&m));
    assert_eq!(c.get("q"), Some(&8));
}
