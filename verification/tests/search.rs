use triword::{
    enumerate_grids, enumerate_grids_unpruned, grids_for_row, survives_pruning, Dictionary, Grid,
    HashedDictionary, PrefixIndex, Word,
};

const FIXTURE: [&str; 12] =
    ["bit", "ice", "ten", "bat", "are", "tea", "ate", "bad", "era", "tar", "toe", "ear"];

fn dictionary(entries: &[&str]) -> HashedDictionary {
    HashedDictionary::build(&Dictionary::new(entries.iter().map(|e| e.to_string()).collect()))
}

fn rows(grids: &[Grid]) -> Vec<(Word, Word, Word)> {
    grids.iter().map(|g| g.rows()).collect()
}

#[test]
fn fixture_has_exactly_its_nine_grids() {
    let dict = dictionary(&FIXTURE);
    let index = PrefixIndex::build(&dict);
    let grids = enumerate_grids(&dict, &index);
    assert_eq!(
        rows(&grids),
        vec![
            (*b"bit", *b"ice", *b"ten"),
            (*b"bit", *b"ice", *b"tea"),
            (*b"bat", *b"are", *b"ten"),
            (*b"bat", *b"are", *b"tea"),
            (*b"bat", *b"ate", *b"ten"),
            (*b"bat", *b"ate", *b"tea"),
            (*b"tea", *b"ear", *b"are"),
            (*b"ate", *b"tea", *b"ear"),
            (*b"ate", *b"tar", *b"era"),
        ]
    );
}

#[test]
fn grid_is_found_only_if_its_columns_are_words() {
    // rows "bat", "ear", "art" have the columns "bea", "aar", "trt"
    let without = dictionary(&["bat", "ear", "art", "bar", "tar", "eat"]);
    let found = enumerate_grids(&without, &PrefixIndex::build(&without));
    assert_eq!(rows(&found), vec![]);
    let with = dictionary(&["bat", "ear", "art", "bar", "tar", "eat", "bea", "aar", "trt"]);
    let found = enumerate_grids(&with, &PrefixIndex::build(&with));
    assert_eq!(
        rows(&found),
        vec![
            (*b"bat", *b"ear", *b"art"),
            (*b"bat", *b"aar", *b"trt"),
            (*b"eat", *b"aar", *b"trt"),
            (*b"bea", *b"ear", *b"art"),
            (*b"bea", *b"aar", *b"trt"),
        ]
    );
    // one column short: without "aar" the grid is gone again
    let short = dictionary(&["bat", "ear", "art", "bar", "tar", "eat", "bea", "trt"]);
    let found = enumerate_grids(&short, &PrefixIndex::build(&short));
    assert_eq!(rows(&found), vec![(*b"bea", *b"ear", *b"art")]);
}

#[test]
fn every_grid_found_has_rows_and_columns_in_the_dictionary() {
    let dict = dictionary(&FIXTURE);
    let grids = enumerate_grids(&dict, &PrefixIndex::build(&dict));
    assert!(!grids.is_empty());
    for grid in &grids {
        let (r1, r2, r3) = grid.rows();
        let (c1, c2, c3) = grid.columns();
        for word in [r1, r2, r3, c1, c2, c3] {
            assert!(dict.contains(&word));
        }
        assert!(grid.is_valid(&dict));
    }
}

#[test]
fn pruned_and_unpruned_search_find_the_same_grids() {
    for entries in [
        &FIXTURE[..],
        &["bat", "ear", "art", "bet", "are", "tee", "aa", "bats", "bat", "tea", "ate", "eat"],
        &["bat", "ear", "art", "bar", "tar", "eat"],
        &["aaa"],
        &["abc"],
        &[],
    ] {
        let dict = dictionary(entries);
        let pruned = enumerate_grids(&dict, &PrefixIndex::build(&dict));
        let plain = enumerate_grids_unpruned(&dict);
        assert_eq!(rows(&pruned), rows(&plain));
    }
}

#[test]
fn unpruned_search_finds_the_fifteen_grids() {
    let dict = dictionary(&["bat", "ear", "art", "bet", "are", "tee", "tea", "ate", "eat"]);
    let grids = enumerate_grids_unpruned(&dict);
    assert_eq!(grids.len(), 15);
    assert_eq!(grids[0].rows(), (*b"bat", *b"are", *b"tee"));
    assert_eq!(grids[4].rows(), (*b"tea", *b"ear", *b"art"));
    assert_eq!(grids[14].rows(), (*b"eat", *b"ate", *b"tea"));
}

#[test]
fn single_word_square() {
    let dict = dictionary(&["aaa"]);
    let grids = enumerate_grids(&dict, &PrefixIndex::build(&dict));
    assert_eq!(rows(&grids), vec![(*b"aaa", *b"aaa", *b"aaa")]);
}

#[test]
fn dictionary_without_three_letter_words_has_no_grid() {
    let dict = dictionary(&["a", "to", "four", "seven", ""]);
    assert_eq!(dict.len(), 0);
    let grids = enumerate_grids(&dict, &PrefixIndex::build(&dict));
    assert!(grids.is_empty());
    assert!(enumerate_grids_unpruned(&dict).is_empty());
}

#[test]
fn grids_for_row_finds_the_grids_of_one_first_row() {
    let dict = dictionary(&FIXTURE);
    let index = PrefixIndex::build(&dict);
    assert_eq!(
        rows(&grids_for_row(&dict, &index, b"bat")),
        vec![
            (*b"bat", *b"are", *b"ten"),
            (*b"bat", *b"are", *b"tea"),
            (*b"bat", *b"ate", *b"ten"),
            (*b"bat", *b"ate", *b"tea"),
        ]
    );
    assert_eq!(rows(&grids_for_row(&dict, &index, b"ice")), vec![]);
    assert_eq!(rows(&grids_for_row(&dict, &index, b"tea")), vec![(*b"tea", *b"ear", *b"are")]);
}

#[test]
fn rows_concatenate_to_the_whole_search() {
    let dict = dictionary(&FIXTURE);
    let index = PrefixIndex::build(&dict);
    let mut by_row = Vec::new();
    for i in 0..dict.len() {
        by_row.extend(rows(&grids_for_row(&dict, &index, &dict.word(i))));
    }
    assert_eq!(by_row, rows(&enumerate_grids(&dict, &index)));
}

#[test]
fn survives_pruning_wants_every_column_prefix_completable() {
    let dict = dictionary(&FIXTURE);
    let index = PrefixIndex::build(&dict);
    // columns start "bi", "ic", "te": "bit", "ice", "ten"
    assert!(survives_pruning(&index, b"bit", b"ice"));
    // columns start "ba", "ar", "te"
    assert!(survives_pruning(&index, b"bat", b"are"));
    // columns start "bb", ...
    assert!(!survives_pruning(&index, b"bit", b"bit"));
    // columns start "bt", "ie", "tn"
    assert!(!survives_pruning(&index, b"bit", b"ten"));
    // only the last column fails: "ta", "ea", "ax"
    let index = PrefixIndex::build(&dictionary(&["tab", "eat"]));
    assert!(!survives_pruning(&index, b"tea", b"aax"));
    assert!(survives_pruning(&index, b"tet", b"aaa"));
}

#[test]
fn pruning_keeps_a_prefix_with_a_single_completion() {
    // "zq" starts exactly one word
    let dict = dictionary(&["zzz", "qqq", "zqz"]);
    let index = PrefixIndex::build(&dict);
    assert!(survives_pruning(&index, b"zzz", b"qqq"));
    assert_eq!(
        rows(&enumerate_grids(&dict, &index)),
        rows(&enumerate_grids_unpruned(&dict))
    );
    assert!(rows(&enumerate_grids(&dict, &index)).contains(&(*b"zzz", *b"qqq", *b"zzz")));
}
