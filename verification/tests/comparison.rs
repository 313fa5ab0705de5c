use spelunkrs::comparison::{target_specific_words, word_less};
use spelunkrs::WordCounts;

fn counts(pairs: &[(&str, usize)]) -> WordCounts {
    WordCounts::from_pairs(pairs.iter().map(|(w, c)| (w.to_string(), *c)).collect())
}

#[test]
fn target_specific_words_returns_empty_when_both_maps_are_empty() {
    let known = WordCounts::new();
    let target = WordCounts::new();

    let result = target_specific_words(&known, &target);

    assert!(result.is_empty());
}

#[test]
fn target_specific_words_returns_empty_when_target_is_empty() {
    let known = counts(&[("你好", 3), ("世界", 1)]);
    let target = WordCounts::new();

    let result = target_specific_words(&known, &target);

    assert!(result.is_empty());
}

#[test]
fn target_specific_words_returns_target_word_with_its_count_when_known_is_empty() {
    let known = WordCounts::new();
    let target = counts(&[("你好", 3)]);

    let expected = vec![("你好".to_string(), 3)];
    let result = target_specific_words(&known, &target);

    assert_eq!(result, expected);
}

#[test]
fn target_specific_words_returns_empty_when_all_target_words_are_known() {
    let known = counts(&[("你好", 99)]);
    let target = counts(&[("你好", 3)]);

    let result = target_specific_words(&known, &target);

    assert!(result.is_empty());
}

#[test]
fn target_specific_words_returns_unknown_words_with_target_counts_when_some_words_are_known() {
    let known = counts(&[("你好", 99)]);
    let target = counts(&[("你好", 3), ("世界", 1)]);

    let expected = vec![("世界".to_string(), 1)];
    let result = target_specific_words(&known, &target);

    assert_eq!(result, expected);
}

#[test]
fn target_specific_words_sorts_by_descending_count() {
    let known = WordCounts::new();
    let target = counts(&[("你好", 3), ("世界", 1)]);

    let expected = vec![("你好".to_string(), 3), ("世界".to_string(), 1)];
    let result = target_specific_words(&known, &target);

    assert_eq!(result, expected);
}

#[test]
fn target_specific_words_sorts_by_word_when_counts_are_equal() {
    let known = WordCounts::new();
    let target = counts(&[("你好", 3), ("世界", 3)]);

    let expected = vec![("世界".to_string(), 3), ("你好".to_string(), 3)];
    let result = target_specific_words(&known, &target);

    assert_eq!(result, expected);
}

#[test]
fn target_specific_words_filters_known_words_and_sorts_by_count_then_word() {
    let known = counts(&[("五", 10)]);
    let target = counts(&[("一", 5), ("二", 5), ("三", 3), ("四", 1), ("五", 99)]);

    let expected = vec![
        ("一".to_string(), 5),
        ("二".to_string(), 5),
        ("三".to_string(), 3),
        ("四".to_string(), 1),
    ];
    let result = target_specific_words(&known, &target);

    assert_eq!(result, expected);
}

#[test]
fn target_specific_words_doc_example() {
    let known = counts(&[("你好", 10)]);
    let target = counts(&[("你好", 2), ("世界", 3)]);

    let result = target_specific_words(&known, &target);

    assert_eq!(result, vec![("世界".to_string(), 3)]);
}

#[test]
fn comparing_a_vocabulary_with_itself_finds_nothing() {
    let target = counts(&[("一", 5), ("二", 5), ("三", 3)]);

    assert!(target_specific_words(&target, &target).is_empty());
}

#[test]
fn known_counts_do_not_matter() {
    let target = counts(&[("一", 5), ("二", 7)]);
    let first = target_specific_words(&counts(&[("一", 1)]), &target);
    let second = target_specific_words(&counts(&[("一", 1000)]), &target);

    assert_eq!(first, second);
    assert_eq!(first, vec![("二".to_string(), 7)]);
}

#[test]
fn ties_are_ordered_by_code_point_and_prefix_first() {
    let target = counts(&[("ab", 2), ("a", 2), ("B", 2), ("b", 2), ("z", 4)]);

    let result = target_specific_words(&WordCounts::new(), &target);

    assert_eq!(
        result,
        vec![
            ("z".to_string(), 4),
            ("B".to_string(), 2),
            ("a".to_string(), 2),
            ("ab".to_string(), 2),
            ("b".to_string(), 2),
        ]
    );
}

#[test]
fn word_less_orders_by_code_points() {
    assert!(word_less(&"世界".to_string(), &"你好".to_string()));
    assert!(!word_less(&"你好".to_string(), &"世界".to_string()));
    assert!(word_less(&"a".to_string(), &"ab".to_string()));
    assert!(!word_less(&"ab".to_string(), &"ab".to_string()));
    assert!(word_less(&"".to_string(), &"a".to_string()));
}

#[test]
fn more_known_words_leave_a_subsequence() {
    let target = counts(&[("一", 5), ("二", 5), ("三", 3), ("四", 1)]);
    let fewer_known = target_specific_words(&counts(&[("五", 1)]), &target);
    let more_known = target_specific_words(&counts(&[("五", 1), ("二", 9), ("四", 2)]), &target);

    let expected: Vec<(String, usize)> = fewer_known
        .iter()
        .filter(|(w, _)| w != "二" && w != "四")
        .cloned()
        .collect();
    assert_eq!(more_known, expected);
    assert_eq!(more_known, vec![("一".to_string(), 5), ("三".to_string(), 3)]);
}
