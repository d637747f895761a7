use n2::smallmap::SmallMap;

/// A lookup finds the last value inserted under a key; keys keep the order
/// they were first inserted in.
#[test]
fn get_finds_last_insert() {
    let mut m: SmallMap<Vec<u8>, u32> = SmallMap::new();
    assert_eq!(m.get(b"a"), None);
    m.insert(b"a".to_vec(), 1);
    m.insert(b"b".to_vec(), 2);
    m.insert(b"a".to_vec(), 3);
    assert_eq!(m.get(b"a"), Some(&3));
    assert_eq!(m.get(b"b"), Some(&2));
    assert_eq!(m.get(b"c"), None);
    assert_eq!(m.len(), 2);
    let keys: Vec<&Vec<u8>> = m.iter().iter().map(|(k, _)| k).collect();
    assert_eq!(keys, vec![&b"a".to_vec(), &b"b".to_vec()]);
}
