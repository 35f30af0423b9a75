use std::collections::HashMap;
use string_analyzer::digest::{hash_text, to_hex_lower};
use string_analyzer::record::{analyse_string, count_chars, AnalysisResult};

fn analysed(text: &str) -> AnalysisResult {
    analyse_string(text.to_string(), "2024-01-01T00:00:00.000Z".to_string())
}

#[test]
fn racecar_is_analysed() {
    let result = analysed("racecar");
    assert_eq!(result.length, 7);
    assert!(result.is_palindrome);
    assert_eq!(result.unique_characters, 4);
    assert_eq!(result.word_count, 1);
    assert_eq!(result.word, "racecar");
    assert_eq!(
        result.sha256_hash,
        "e00f9ef51a95f6e854862eed28dc0f1a68f154d9f75ddd841ab00de6ede9209b"
    );
    let mut expected: HashMap<u32, usize> = HashMap::new();
    expected.insert('r' as u32, 2);
    expected.insert('a' as u32, 2);
    expected.insert('c' as u32, 2);
    expected.insert('e' as u32, 1);
    assert_eq!(result.character_frequency_map, expected);
    assert_eq!(result.created_at, "2024-01-01T00:00:00.000Z");
}

#[test]
fn hello_world_is_analysed() {
    let result = analysed("hello world");
    assert_eq!(result.length, 11);
    assert!(!result.is_palindrome);
    assert_eq!(result.word_count, 2);
    assert_eq!(result.unique_characters, 8);
    assert_eq!(
        result.sha256_hash,
        "b94d27b9934d3e08a52e52d7da7dabfac484efe37a5380ee9088f7ace2efcde9"
    );
}

#[test]
fn the_empty_text_is_analysed_like_any_other() {
    let result = analysed("");
    assert_eq!(result.length, 0);
    assert!(result.is_palindrome);
    assert_eq!(result.unique_characters, 0);
    assert_eq!(result.word_count, 0);
    assert!(result.character_frequency_map.is_empty());
    assert_eq!(
        result.sha256_hash,
        "e3b0c44298fc1c149afbf4c8996fb92427ae41e4649b934ca495991b7852b855"
    );
}

#[test]
fn length_counts_scalar_values_not_bytes() {
    let result = analysed("Ünïcödé ß");
    assert_eq!(result.length, 9);
    assert_eq!(result.word_count, 2);
    assert_eq!(result.unique_characters, 9);
    assert_eq!(
        result.sha256_hash,
        "5c40761c95e70d0d6f0f4ce9655ed548a256b1a1ac8dfea986be5e52a8954bf2"
    );
}

#[test]
fn case_and_whitespace_are_kept() {
    let result = analysed("  Racecar ");
    assert_eq!(result.word, "  Racecar ");
    assert!(!result.is_palindrome);
    assert_eq!(result.word_count, 1);
    assert_eq!(result.length, 10);
}

#[test]
fn combining_marks_are_scalar_values_of_their_own() {
    let result = analysed("a\u{0301}a");
    assert_eq!(result.length, 3);
    assert!(result.is_palindrome);
    assert_eq!(result.unique_characters, 2);
    let reversed_differs = analysed("a\u{0301}ba");
    assert!(!reversed_differs.is_palindrome);
}

#[test]
fn the_same_text_gives_the_same_analysis_but_for_the_time() {
    let first = analyse_string("level up".to_string(), "first".to_string());
    let second = analyse_string("level up".to_string(), "second".to_string());
    assert_eq!(first.sha256_hash, second.sha256_hash);
    assert_eq!(first.length, second.length);
    assert_eq!(first.is_palindrome, second.is_palindrome);
    assert_eq!(first.unique_characters, second.unique_characters);
    assert_eq!(first.word, second.word);
    assert_eq!(first.word_count, second.word_count);
    assert_eq!(first.character_frequency_map, second.character_frequency_map);
    assert_ne!(first.created_at, second.created_at);
}

#[test]
fn different_texts_give_different_hashes() {
    assert_ne!(analysed("racecar").sha256_hash, analysed("racecars").sha256_hash);
}

#[test]
fn counts_add_up_to_the_length() {
    for text in ["racecar", "hello world", "a", "aaaa", "Ünïcödé ß", "tab\tand space"] {
        let result = analysed(text);
        let total: usize = result.character_frequency_map.values().sum();
        assert_eq!(total, result.length, "{:?}", text);
        assert_eq!(result.unique_characters, result.character_frequency_map.len(), "{:?}", text);
    }
}

#[test]
fn count_chars_counts_each_scalar_value() {
    let text: Vec<char> = "banana".chars().collect();
    let counts = count_chars(&text);
    assert_eq!(counts.len(), 3);
    assert_eq!(counts.get(&('b' as u32)), Some(&1));
    assert_eq!(counts.get(&('a' as u32)), Some(&3));
    assert_eq!(counts.get(&('n' as u32)), Some(&2));
}

#[test]
fn hash_text_is_the_sha256_digest_in_lowercase_hex() {
    assert_eq!(hash_text("abc"), "ba7816bf8f01cfea414140de5dae2223b00361a396177a9cb410ff61f20015ad");
    assert_eq!(hash_text("a"), "ca978112ca1bbdcafac231b39a23dc4da786eff8147c4e72b9807785afee48bb");
    assert_eq!(hash_text("level").len(), 64);
    assert_eq!(hash_text("level"), "0081779c287d567d9ca622f4c0cc2ede819b0cc7f286a5f01d8c3c0178191ad6");
}

#[test]
fn hex_writes_two_digits_for_each_byte() {
    assert_eq!(to_hex_lower(&vec![0x00, 0x0a, 0x14, 0x1e, 0xff, 0xab]), "000a141effab");
    assert_eq!(to_hex_lower(&Vec::new()), "");
}

#[test]
fn new_keeps_the_fields() {
    let mut counts: HashMap<u32, usize> = HashMap::new();
    counts.insert(120, 1);
    let result = AnalysisResult::new(
        1,
        true,
        1,
        "x".to_string(),
        1,
        "hash".to_string(),
        counts.clone(),
        "now".to_string(),
    );
    assert_eq!(result.length, 1);
    assert!(result.is_palindrome);
    assert_eq!(result.unique_characters, 1);
    assert_eq!(result.word, "x");
    assert_eq!(result.word_count, 1);
    assert_eq!(result.sha256_hash, "hash");
    assert_eq!(result.character_frequency_map, counts);
    assert_eq!(result.created_at, "now");
}

#[test]
fn clone_gives_an_equal_record() {
    let result = analysed("racecar");
    assert_eq!(result.clone(), result);
}
