use std::collections::HashMap;

use spelunkrs::tokenizer::{contains_chinese, is_chinese, tally_chinese_words};
use spelunkrs::{Tokenizer, WordCounts};

fn as_map(counts: &WordCounts) -> HashMap<String, usize> {
    counts.entries().iter().cloned().collect()
}

#[test]
fn test_is_chinese_bounds() {
    assert!(is_chinese('一'));
    assert!(is_chinese('鿿'));
    assert!(is_chinese('我'));

    assert!(!is_chinese('\u{4DFF}'));
    assert!(!is_chinese('\u{A000}'));
    assert!(!is_chinese('A'));
    assert!(!is_chinese('.'));
    assert!(!is_chinese('\n'));
}

#[test]
fn test_tokenizer_default() {
    let tokenizer = Tokenizer::default();
    let result = tokenizer.tokenize("测试");
    assert_eq!(as_map(&result), HashMap::from([("测试".to_string(), 1)]));
}

#[test]
fn test_tokenize_normal_sentence() {
    let sentence = "我们来测试一下这个系统";
    let expected: HashMap<String, usize> = HashMap::from([
        ("我们".to_string(), 1),
        ("来".to_string(), 1),
        ("测试".to_string(), 1),
        ("一下".to_string(), 1),
        ("这个".to_string(), 1),
        ("系统".to_string(), 1),
    ]);
    let tokenizer = Tokenizer::new();
    let result = tokenizer.tokenize(sentence);
    assert_eq!(as_map(&result), expected);
}

#[test]
fn test_tokenize_punctuation_sentence() {
    let sentence = "我们来测试一下这个系统，好吗？";
    let expected: HashMap<String, usize> = HashMap::from([
        ("我们".to_string(), 1),
        ("来".to_string(), 1),
        ("测试".to_string(), 1),
        ("一下".to_string(), 1),
        ("这个".to_string(), 1),
        ("系统".to_string(), 1),
        ("好".to_string(), 1),
        ("吗".to_string(), 1),
    ]);
    let tokenizer = Tokenizer::new();
    let result = tokenizer.tokenize(sentence);
    assert_eq!(as_map(&result), expected);
}

#[test]
fn test_tokenize_markdown_sentence() {
    let sentence = "# 汉字 \n **第一**";
    let expected: HashMap<String, usize> =
        HashMap::from([("汉字".to_string(), 1), ("第一".to_string(), 1)]);
    let tokenizer = Tokenizer::new();
    let result = tokenizer.tokenize(sentence);
    assert_eq!(as_map(&result), expected);
}

#[test]
fn test_tokenize_empty_sentence() {
    let sentence = "";
    let tokenizer = Tokenizer::new();
    let result = tokenizer.tokenize(sentence);
    assert!(result.is_empty());
}

#[test]
fn test_tokenize_multilingual_sentence() {
    let sentence = "你好，我叫 Tim";
    let expected: HashMap<String, usize> = HashMap::from([
        ("你好".to_string(), 1),
        ("我".to_string(), 1),
        ("叫".to_string(), 1),
    ]);
    let tokenizer = Tokenizer::new();
    let result = tokenizer.tokenize(sentence);
    assert_eq!(as_map(&result), expected);
}

#[test]
fn test_tokenize_whitespace_sentence() {
    let sentence = "   \n\t   ";
    let tokenizer = Tokenizer::new();
    let result = tokenizer.tokenize(sentence);
    assert!(result.is_empty());
}

#[test]
fn test_tokenize_repeat_sentence() {
    let sentence = "你好你好你好";
    let expected: HashMap<String, usize> = HashMap::from([("你好".to_string(), 3)]);
    let tokenizer = Tokenizer::new();
    let result = tokenizer.tokenize(sentence);
    assert_eq!(as_map(&result), expected);
}

#[test]
fn test_tokenize_loanword_sentence() {
    let sentence = "我们穿T恤去唱歌，这次AA制";
    let expected: HashMap<String, usize> = HashMap::from([
        ("我们".to_string(), 1),
        ("穿".to_string(), 1),
        ("T恤".to_string(), 1),
        ("去".to_string(), 1),
        ("唱歌".to_string(), 1),
        ("这次".to_string(), 1),
        ("AA制".to_string(), 1),
    ]);
    let tokenizer = Tokenizer::new();
    let result = tokenizer.tokenize(sentence);
    assert_eq!(as_map(&result), expected);
}

#[test]
fn test_tokenize_arabic_numerals() {
    let sentence = "2026年";
    let expected: HashMap<String, usize> = HashMap::from([("年".to_string(), 1)]);
    let tokenizer = Tokenizer::new();
    let result = tokenizer.tokenize(sentence);
    assert_eq!(as_map(&result), expected);
}

#[test]
fn test_tokenize_single_character() {
    let sentence = "王";
    let expected: HashMap<String, usize> = HashMap::from([("王".to_string(), 1)]);
    let tokenizer = Tokenizer::new();
    let result = tokenizer.tokenize(sentence);
    assert_eq!(as_map(&result), expected);
}

#[test]
fn tokenize_doc_example() {
    let tokenizer = Tokenizer::new();
    let words = tokenizer.tokenize("我们来测试一下");
    let expected = HashMap::from([
        ("我们".to_string(), 1),
        ("来".to_string(), 1),
        ("测试".to_string(), 1),
        ("一下".to_string(), 1),
    ]);
    assert_eq!(as_map(&words), expected);
}

#[test]
fn tokenize_latin_text_yields_nothing() {
    let tokenizer = Tokenizer::new();
    assert!(tokenizer.tokenize("Hello, world! 2026 T-shirt").is_empty());
}

#[test]
fn tally_counts_only_words_with_chinese_characters() {
    let words: Vec<String> = ["你好", "，", "Tim", "你好", "T恤", " ", "世界"]
        .iter()
        .map(|w| w.to_string())
        .collect();
    let result = tally_chinese_words(&words);
    let expected: HashMap<String, usize> = HashMap::from([
        ("你好".to_string(), 2),
        ("T恤".to_string(), 1),
        ("世界".to_string(), 1),
    ]);
    assert_eq!(as_map(&result), expected);
    assert_eq!(result.entries()[0], ("你好".to_string(), 2));
}

#[test]
fn contains_chinese_looks_at_every_character() {
    assert!(contains_chinese(&"AA制".to_string()));
    assert!(contains_chinese(&"T恤".to_string()));
    assert!(!contains_chinese(&"2026".to_string()));
    assert!(!contains_chinese(&"，".to_string()));
    assert!(!contains_chinese(&"".to_string()));
}

#[test]
fn counted_words_are_pieces_of_the_sentence() {
    let sentence = "我们穿T恤去唱歌，这次AA制，我们";
    let tokenizer = Tokenizer::new();
    let result = tokenizer.tokenize(sentence);
    let chinese_chars = sentence.chars().filter(|c| is_chinese(*c)).count();
    let mut total = 0;
    for (word, count) in result.entries() {
        assert!(sentence.contains(word.as_str()));
        assert!(contains_chinese(word));
        assert!(*count >= 1);
        total += count;
    }
    assert!(total <= chinese_chars);
    assert_eq!(result.get(&"我们".to_string()), Some(2));
}
