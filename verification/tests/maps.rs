use model_das::collections::KeyedMap;

#[test]
fn map_by_number() {
    let mut map: KeyedMap<u16, &str> = KeyedMap::new();
    assert_eq!(map.len(), 0);
    map.insert(1, "one");
    map.insert(2, "two");
    map.insert(1, "uno");
    assert_eq!(map.len(), 2);
    assert_eq!(map.get(&1), Some(&"uno"));
    assert_eq!(map.get(&3), None);
    assert!(map.contains(&2));
    assert_eq!(map.remove(&2), Some("two"));
    assert_eq!(map.remove(&2), None);
    assert!(!map.contains(&2));
    assert_eq!(map.len(), 1);
    assert_eq!(*map.entry(0), (1, "uno"));
}

#[test]
fn map_by_bytes() {
    let mut map: KeyedMap<Vec<u8>, u8> = KeyedMap::new();
    map.insert(vec![1, 2], 1);
    map.insert(vec![1], 2);
    map.insert(vec![], 3);
    assert_eq!(map.get(&vec![1, 2]), Some(&1));
    assert_eq!(map.get(&vec![1]), Some(&2));
    assert_eq!(map.get(&vec![]), Some(&3));
    assert_eq!(map.get(&vec![2, 1]), None);
}
