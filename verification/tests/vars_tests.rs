use dotfiler::vars::VarTable;

#[test]
fn new_table_is_empty() {
    let t = VarTable::new();
    assert_eq!(t.len(), 0);
    assert!(!t.has_key("user"));
}

#[test]
fn insert_adds_and_finds_keys() {
    let mut t = VarTable::new();
    assert!(t.insert("user".to_string(), "admin".to_string()));
    assert!(t.insert("shell".to_string(), "zsh".to_string()));
    assert_eq!(t.len(), 2);
    assert!(t.has_key("user"));
    assert!(t.has_key("shell"));
    assert!(!t.has_key("color"));
}

#[test]
fn insert_rejects_a_repeated_key() {
    let mut t = VarTable::new();
    assert!(t.insert("user".to_string(), "admin".to_string()));
    assert!(!t.insert("user".to_string(), "other".to_string()));
    assert_eq!(t.len(), 1);
}

#[test]
fn insert_orders_longer_values_first() {
    let mut t = VarTable::new();
    assert!(t.insert("short".to_string(), "ab".to_string()));
    assert!(t.insert("long".to_string(), "abcdef".to_string()));
    assert!(t.insert("mid".to_string(), "abcd".to_string()));
    assert_eq!(t.key_at(0).as_str(), "long");
    assert_eq!(t.key_at(1).as_str(), "mid");
    assert_eq!(t.key_at(2).as_str(), "short");
    assert_eq!(t.value_at(0).as_str(), "abcdef");
    assert_eq!(t.value_at(2).as_str(), "ab");
}

#[test]
fn insert_keeps_earlier_pairs_before_equal_lengths() {
    let mut t = VarTable::new();
    assert!(t.insert("one".to_string(), "aa".to_string()));
    assert!(t.insert("two".to_string(), "bb".to_string()));
    assert_eq!(t.key_at(0).as_str(), "one");
    assert_eq!(t.key_at(1).as_str(), "two");
}
