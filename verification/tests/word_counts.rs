use spelunkrs::WordCounts;

#[test]
fn insert_replaces_and_reports_previous_count() {
    let mut counts = WordCounts::new();
    assert!(counts.is_empty());
    assert_eq!(counts.insert("你好".to_string(), 1), None);
    assert_eq!(counts.insert("世界".to_string(), 2), None);
    assert_eq!(counts.insert("你好".to_string(), 5), Some(1));
    assert_eq!(counts.len(), 2);
    assert_eq!(counts.get(&"你好".to_string()), Some(5));
    assert_eq!(counts.get(&"世界".to_string()), Some(2));
    assert_eq!(counts.get(&"再见".to_string()), None);
    assert!(counts.contains_key(&"世界".to_string()));
    assert!(!counts.contains_key(&"再见".to_string()));
}

#[test]
fn from_pairs_keeps_last_count_of_repeated_word() {
    let counts = WordCounts::from_pairs(vec![
        ("一".to_string(), 1),
        ("二".to_string(), 2),
        ("一".to_string(), 3),
    ]);
    assert_eq!(counts.len(), 2);
    assert_eq!(counts.get(&"一".to_string()), Some(3));
    assert_eq!(
        counts.entries(),
        &vec![("一".to_string(), 3), ("二".to_string(), 2)]
    );
}
