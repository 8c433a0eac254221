use std::collections::HashSet;
use triword::{pack_word, Dictionary, HashedDictionary, Word};

fn list(entries: &[&str]) -> Dictionary {
    Dictionary::new(entries.iter().map(|e| e.to_string()).collect())
}

fn words_of(dict: &HashedDictionary) -> Vec<Word> {
    (0..dict.len()).map(|i| dict.word(i)).collect()
}

#[test]
fn dictionary_keeps_entries_as_given() {
    let dict = list(&["bat", "a", "bats", "bat"]);
    assert_eq!(dict.len(), 4);
    assert_eq!(dict.get(0).map(|s| s.as_str()), Some("bat"));
    assert_eq!(dict.get(1).map(|s| s.as_str()), Some("a"));
    assert_eq!(dict.get(3).map(|s| s.as_str()), Some("bat"));
    assert_eq!(dict.get(4), None);
}

#[test]
fn build_keeps_only_three_byte_entries() {
    let dict = HashedDictionary::build(&list(&["bat", "", "a", "to", "bats", "ear", "zebra"]));
    assert_eq!(words_of(&dict), vec![*b"bat", *b"ear"]);
}

#[test]
fn build_keeps_the_first_of_equal_entries() {
    let dict = HashedDictionary::build(&list(&["ear", "bat", "ear", "art", "bat", "ear"]));
    assert_eq!(words_of(&dict), vec![*b"ear", *b"bat", *b"art"]);
    assert_eq!(dict.len(), 3);
}

#[test]
fn build_of_nothing_is_empty() {
    assert_eq!(HashedDictionary::build(&list(&[])).len(), 0);
    assert_eq!(HashedDictionary::build(&list(&["ab", "abcd", ""])).len(), 0);
}

#[test]
fn build_counts_bytes_not_characters() {
    // "é1" is three bytes long; "日本語" is three characters but nine bytes.
    let dict = HashedDictionary::build(&list(&["é1", "日本語", "Bat"]));
    assert_eq!(words_of(&dict), vec![[0xc3, 0xa9, 0x31], *b"Bat"]);
}

#[test]
fn contains_answers_membership() {
    let dict = HashedDictionary::build(&list(&["bat", "ear", "art"]));
    assert!(dict.contains(b"bat"));
    assert!(dict.contains(b"ear"));
    assert!(dict.contains(b"art"));
    assert!(!dict.contains(b"tab"));
    assert!(!dict.contains(b"baa"));
    assert!(!HashedDictionary::build(&list(&[])).contains(b"bat"));
}

#[test]
fn from_set_holds_the_words_of_the_codes() {
    let mut set = HashSet::new();
    set.insert(pack_word(b"bat"));
    set.insert(pack_word(b"ear"));
    set.insert(pack_word(b"art"));
    let dict = HashedDictionary::from_set(set);
    assert_eq!(dict.len(), 3);
    let mut words = words_of(&dict);
    words.sort();
    assert_eq!(words, vec![*b"art", *b"bat", *b"ear"]);
    assert!(dict.contains(b"bat"));
    assert!(!dict.contains(b"tab"));
}

#[test]
fn from_set_ignores_codes_of_no_word() {
    let mut set = HashSet::new();
    set.insert(pack_word(b"bat"));
    set.insert(0x0100_0000);
    set.insert(u32::MAX);
    let dict = HashedDictionary::from_set(set);
    assert_eq!(words_of(&dict), vec![*b"bat"]);
}

#[test]
fn from_set_of_nothing_is_empty() {
    assert_eq!(HashedDictionary::from_set(HashSet::new()).len(), 0);
}
