use z_sharp::strmap::StrMap;

#[test]
fn insert_then_get_gives_back_the_value() {
    let mut m: StrMap<u32> = StrMap::new();
    assert!(m.is_empty());
    assert_eq!(m.insert("a".to_string(), 1), None);
    assert_eq!(m.insert("b".to_string(), 2), None);
    assert_eq!(m.get(&"a".to_string()), Some(&1));
    assert_eq!(m.get(&"b".to_string()), Some(&2));
    assert_eq!(m.get(&"c".to_string()), None);
    assert_eq!(m.len(), 2);
}

#[test]
fn insert_replaces_in_place() {
    let mut m: StrMap<u32> = StrMap::new();
    m.insert("a".to_string(), 1);
    m.insert("b".to_string(), 2);
    assert_eq!(m.insert("a".to_string(), 3), Some(1));
    assert_eq!(m.len(), 2);
    assert_eq!(m.key_at(0), "a");
    assert_eq!(*m.value_at(0), 3);
    assert_eq!(m.key_at(1), "b");
    assert_eq!(m.position_of(&"b".to_string()), Some(1));
    assert_eq!(m.position_of(&"z".to_string()), None);
    assert!(m.contains_key(&"a".to_string()));
    assert!(!m.contains_key(&"z".to_string()));
}
