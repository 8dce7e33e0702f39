use ruv::name_map::NameMap;

#[test]
fn name_map_insert_get_remove() {
    let mut m: NameMap<u32> = NameMap::new();
    assert_eq!(m.len(), 0);
    m.insert("b".to_string(), 2);
    m.insert("a".to_string(), 1);
    m.insert("c".to_string(), 3);
    m.insert("b".to_string(), 20);
    assert_eq!(m.len(), 3);
    assert_eq!(m.get("b"), Some(&20));
    assert_eq!(m.get("z"), None);
    let names: Vec<String> = (0..m.len()).map(|i| m.name_at(i).clone()).collect();
    assert_eq!(names, vec!["a", "b", "c"]);
    assert_eq!(m.remove("a"), Some(1));
    assert_eq!(m.remove("a"), None);
    assert!(!m.contains_key("a"));
    assert_eq!(*m.value_at_index(0), 20);
}
