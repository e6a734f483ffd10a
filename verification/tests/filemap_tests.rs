use gitlet::filemap::{FileMap, NameSet};

#[test]
fn file_map_keeps_names_sorted() {
    let mut m: FileMap<String> = FileMap::new();
    assert!(m.is_empty());
    m.insert("c".to_string(), "3".to_string());
    m.insert("a".to_string(), "1".to_string());
    m.insert("b".to_string(), "2".to_string());
    assert_eq!(m.keys(), vec!["a", "b", "c"]);
    assert_eq!(m.len(), 3);
    assert_eq!(m.key_at(1), "b");
    assert_eq!(m.value_at(2), "3");
}

#[test]
fn file_map_insert_replaces() {
    let mut m: FileMap<String> = FileMap::new();
    m.insert("a".to_string(), "1".to_string());
    m.insert("a".to_string(), "9".to_string());
    assert_eq!(m.len(), 1);
    assert_eq!(m.get("a").map(|s| s.as_str()), Some("9"));
}

#[test]
fn file_map_remove() {
    let mut m: FileMap<Vec<u8>> = FileMap::new();
    m.insert("a".to_string(), vec![1]);
    m.insert("b".to_string(), vec![2]);
    m.remove("a");
    m.remove("zzz");
    assert!(!m.contains_key("a"));
    assert!(m.contains_key("b"));
    assert_eq!(m.len(), 1);
    assert!(m.get("a").is_none());
}

#[test]
fn file_map_copies_are_equal() {
    let mut m: FileMap<String> = FileMap::new();
    m.insert("k".to_string(), "v".to_string());
    let d = m.duplicate();
    let c = m.clone();
    assert_eq!(d.as_entries(), m.as_entries());
    assert_eq!(c.as_entries(), m.as_entries());
}

#[test]
fn name_set_is_sorted_without_repeats() {
    let mut s = NameSet::new();
    s.insert("y".to_string());
    s.insert("x".to_string());
    s.insert("y".to_string());
    assert_eq!(s.names(), vec!["x", "y"]);
    assert_eq!(s.len(), 2);
    assert!(s.contains("x"));
    assert_eq!(s.name_at(0), "x");
    s.remove("x");
    assert!(!s.contains("x"));
    assert!(!s.is_empty());
    s.remove("y");
    assert!(s.is_empty());
}
