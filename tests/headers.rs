use ravenna::Headers;

#[test]
fn insert_replaces_and_keeps_keys_unique() {
    let mut h = Headers::new();
    assert!(h.is_empty());
    h.insert("a".to_string(), "1".to_string());
    h.insert("b".to_string(), "2".to_string());
    h.insert("a".to_string(), "3".to_string());
    assert_eq!(h.len(), 2);
    assert_eq!(h.get("a").map(|v| v.as_str()), Some("3"));
    assert_eq!(h.get("b").map(|v| v.as_str()), Some("2"));
    assert_eq!(h.get("c"), None);
}
