use std::cmp::Ordering;

use wordpass::{
    compare_bytes, preprocess_word_list, BigInteger, PreprocessOptions, RichWord, WordDb,
};

fn entry(word: &str, meanings: &[&str]) -> RichWord {
    RichWord::new(word.to_string(), meanings.iter().map(|m| m.to_string()).collect())
}

#[test]
fn groups_hold_distinct_words_by_byte_length() {
    let db = WordDb::build_database(vec![
        entry("dog", &[]),
        entry("a", &[]),
        entry("cat", &[]),
        entry("dog", &[]),
        entry("", &[]),
        entry("bear", &[]),
    ])
    .unwrap();
    assert_eq!(db.group_size(1), 1);
    assert_eq!(db.group_size(2), 0);
    assert_eq!(db.group_size(3), 2);
    assert_eq!(db.group_size(4), 1);
    assert_eq!(db.group_size(5), 0);
    assert_eq!(db.group_size(0), 0);
    assert_eq!(db.get_group(3).to_vec(), vec!["cat".to_string(), "dog".to_string()]);
    assert!(db.get_group(2).is_empty());
    assert!(db.get_group(9).is_empty());
    assert_eq!(db.shortest_group_len(), 1);
}

#[test]
fn lengths_are_bytes_not_characters() {
    let db = WordDb::build_database(vec![entry("über", &[]), entry("abcd", &[])]).unwrap();
    assert_eq!(db.group_size(4), 1);
    assert_eq!(db.group_size(5), 1);
    assert_eq!(db.shortest_group_len(), 4);
}

#[test]
fn normalization_merges_equivalent_spellings() {
    // "é" written precomposed and as "e" plus a combining accent
    let db = WordDb::build_database(vec![
        entry("caf\u{e9}", &["coffee house"]),
        entry("cafe\u{301}", &["small restaurant"]),
    ])
    .unwrap();
    assert_eq!(db.group_size(5), 1);
    assert_eq!(db.group_size(6), 0);
    let attached = db.attach_meanings(&["caf\u{e9}".to_string()]);
    assert_eq!(attached[0].word, "caf\u{e9}");
    assert_eq!(
        attached[0].meanings,
        vec!["coffee house".to_string(), "small restaurant".to_string()]
    );
}

#[test]
fn meanings_merge_in_list_order() {
    let db = WordDb::build_database(vec![
        entry("sun", &["star"]),
        entry("moon", &["satellite"]),
        entry("sun", &["day"]),
    ])
    .unwrap();
    let attached = db.attach_meanings(&["sun".to_string(), "moon".to_string(), "mars".to_string()]);
    assert_eq!(attached.len(), 3);
    assert_eq!(attached[0].meanings, vec!["star".to_string(), "day".to_string()]);
    assert_eq!(attached[1].meanings, vec!["satellite".to_string()]);
    assert!(attached[2].meanings.is_empty());
    assert_eq!(attached[2].word, "mars");
}

#[test]
fn byte_order_comparison() {
    assert_eq!(compare_bytes(b"ab", b"ac"), Ordering::Less);
    assert_eq!(compare_bytes(b"ab", b"ab"), Ordering::Equal);
    assert_eq!(compare_bytes(b"abc", b"ab"), Ordering::Greater);
    assert_eq!(compare_bytes(b"", b"a"), Ordering::Less);
}

#[test]
fn preprocessing_filters_and_lowercases() {
    let mut options = PreprocessOptions::new(false, false, Some(3));
    assert!(options.add_exclude_regex("^c").is_ok());
    let out = preprocess_word_list(
        vec![
            entry("Dog", &["pet"]),
            entry("Cat", &[]),
            entry("ox", &[]),
            entry("Bär", &[]),
            entry("HORSE", &[]),
        ],
        &options,
    );
    let words: Vec<String> = out.iter().map(|w| w.word.clone()).collect();
    assert_eq!(words, vec!["dog".to_string(), "horse".to_string()]);
    assert_eq!(out[0].meanings, vec!["pet".to_string()]);
}

#[test]
fn preprocessing_keeps_case_and_umlauts_when_asked() {
    let options = PreprocessOptions::new(true, true, None);
    let out = preprocess_word_list(vec![entry("Bär", &[]), entry("ox", &[])], &options);
    let words: Vec<String> = out.iter().map(|w| w.word.clone()).collect();
    assert_eq!(words, vec!["Bär".to_string(), "ox".to_string()]);
}

#[test]
fn invalid_pattern_is_reported() {
    let mut options = PreprocessOptions::new(false, false, None);
    let err = options.add_exclude_regex("(").unwrap_err();
    assert!(err.starts_with("Invalid regex: "));
    assert!(options.exclude_regexes.is_empty());
}

#[test]
fn big_integers_from_small_values() {
    assert_eq!(BigInteger::from_usize(0), BigInteger::zero());
    assert_eq!(BigInteger::from_usize(255).to_le_bytes(), vec![255, 0]);
    assert_eq!(BigInteger::from_usize(256).to_le_bytes(), vec![0, 1]);
    assert_eq!(BigInteger::from_usize(127).to_le_bytes(), vec![127]);
    assert!(BigInteger::from_usize(1) != BigInteger::from_usize(2));
}
