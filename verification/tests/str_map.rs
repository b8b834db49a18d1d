use databend_plan::str_map::StrMap;

#[test]
fn insert_then_get() {
    let mut m: StrMap<u32> = StrMap::new();
    assert_eq!(m.get(&"k".to_string()), None);
    m.insert("k".to_string(), 1);
    m.insert("j".to_string(), 2);
    m.insert("k".to_string(), 3);
    assert_eq!(m.get(&"k".to_string()), Some(&3));
    assert_eq!(m.get(&"j".to_string()), Some(&2));
    let entries = m.into_entries();
    assert_eq!(entries.len(), 3);
}
