use triword::{Dictionary, HashedDictionary, PrefixIndex};

fn index(entries: &[&str]) -> PrefixIndex {
    let dict =
        HashedDictionary::build(&Dictionary::new(entries.iter().map(|e| e.to_string()).collect()));
    PrefixIndex::build(&dict)
}

#[test]
fn has_prefix_finds_the_only_word_with_a_prefix() {
    let index = index(&["abc"]);
    assert!(index.has_prefix(b"a"));
    assert!(index.has_prefix(b"ab"));
    assert!(index.has_prefix(b"abc"));
}

#[test]
fn has_prefix_rejects_what_starts_no_word() {
    let index = index(&["abc", "abd", "xyz"]);
    assert!(!index.has_prefix(b"b"));
    assert!(!index.has_prefix(b"ac"));
    assert!(!index.has_prefix(b"abe"));
    assert!(!index.has_prefix(b"xz"));
    assert!(!index.has_prefix(b"abcd"));
}

#[test]
fn has_prefix_works_where_words_share_letters() {
    let index = index(&["aba", "abc", "abz", "aqa", "bat"]);
    for prefix in [&b"a"[..], b"ab", b"aq", b"b", b"ba", b"aba", b"abc", b"abz", b"aqa", b"bat"] {
        assert!(index.has_prefix(prefix));
    }
    for prefix in [&b"c"[..], b"aa", b"bb", b"abb", b"aqb", b"bau"] {
        assert!(!index.has_prefix(prefix));
    }
}

#[test]
fn has_prefix_of_nothing_asks_for_any_word() {
    assert!(index(&["abc"]).has_prefix(b""));
    assert!(!index(&[]).has_prefix(b""));
}

#[test]
fn empty_index_has_no_prefix() {
    let index = index(&["ab", "abcd"]);
    assert!(!index.has_prefix(b"a"));
    assert!(!index.has_prefix(b"ab"));
}
