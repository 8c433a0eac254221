use triword::{Dictionary, Grid, GridError, HashedDictionary};

fn dictionary(entries: &[&str]) -> HashedDictionary {
    HashedDictionary::build(&Dictionary::new(entries.iter().map(|e| e.to_string()).collect()))
}

#[test]
fn from_strs_keeps_rows_and_derives_columns() {
    let grid = Grid::from_strs(b"bit", b"ice", b"ten");
    assert_eq!(grid.rows(), (*b"bit", *b"ice", *b"ten"));
    assert_eq!(grid.columns(), (*b"bit", *b"ice", *b"ten"));
    let grid = Grid::from_strs(b"abc", b"def", b"ghi");
    assert_eq!(grid.rows(), (*b"abc", *b"def", *b"ghi"));
    assert_eq!(grid.columns(), (*b"adg", *b"beh", *b"cfi"));
}

#[test]
fn to_array_reads_across_the_rows() {
    assert_eq!(Grid::to_array(b"abc", b"def", b"ghi", 0), *b"adg");
    assert_eq!(Grid::to_array(b"abc", b"def", b"ghi", 1), *b"beh");
    assert_eq!(Grid::to_array(b"abc", b"def", b"ghi", 2), *b"cfi");
}

#[test]
fn letter_at_walks_row_by_row() {
    let grid = Grid::from_strs(b"abc", b"def", b"ghi");
    let expected = b"abcdefghi";
    for position in 0..9 {
        assert_eq!(grid.letter_at(position), Ok(expected[position]));
    }
}

#[test]
fn letter_at_rejects_positions_outside_the_grid() {
    let grid = Grid::from_strs(b"abc", b"def", b"ghi");
    assert_eq!(grid.letter_at(9), Err(GridError::PositionOutOfRange { position: 9 }));
    assert_eq!(
        grid.letter_at(usize::MAX),
        Err(GridError::PositionOutOfRange { position: usize::MAX })
    );
}

#[test]
fn slot_iter_gives_each_cell_with_its_position() {
    let grid = Grid::from_strs(b"abc", b"def", b"ghi");
    assert_eq!(
        grid.slot_iter(),
        vec![
            (0, b'a'),
            (1, b'b'),
            (2, b'c'),
            (3, b'd'),
            (4, b'e'),
            (5, b'f'),
            (6, b'g'),
            (7, b'h'),
            (8, b'i')
        ]
    );
}

#[test]
fn is_valid_checks_the_columns_only() {
    let dict = dictionary(&["bit", "ice", "ten", "bat", "ear", "art"]);
    assert!(Grid::from_strs(b"bit", b"ice", b"ten").is_valid(&dict));
    // columns "bea", "ata", "trt" are no words
    assert!(!Grid::from_strs(b"bat", b"ear", b"art").is_valid(&dict));
    // rows are not looked at: "abc", "def", "ghi" are no words here, the columns are
    let columns_only = dictionary(&["adg", "beh", "cfi"]);
    assert!(Grid::from_strs(b"abc", b"def", b"ghi").is_valid(&columns_only));
    assert!(!Grid::from_strs(b"adg", b"beh", b"cfi").is_valid(&columns_only));
}

#[test]
fn is_valid_needs_every_column() {
    assert!(!Grid::from_strs(b"abc", b"def", b"ghi").is_valid(&dictionary(&["adg", "beh"])));
    assert!(!Grid::from_strs(b"abc", b"def", b"ghi").is_valid(&dictionary(&["adg", "cfi"])));
    assert!(!Grid::from_strs(b"abc", b"def", b"ghi").is_valid(&dictionary(&["beh", "cfi"])));
    assert!(!Grid::from_strs(b"abc", b"def", b"ghi").is_valid(&dictionary(&[])));
}

#[test]
fn matches_wants_every_constraint_met() {
    let grid = Grid::from_strs(b"abc", b"def", b"ghi");
    assert!(grid.matches(&[]));
    assert!(grid.matches(&[(0, b'a')]));
    assert!(grid.matches(&[(0, b'a'), (4, b'e'), (8, b'i')]));
    assert!(!grid.matches(&[(0, b'b')]));
    assert!(!grid.matches(&[(0, b'a'), (4, b'x'), (8, b'i')]));
}

#[test]
fn matches_fails_on_positions_outside_the_grid() {
    let grid = Grid::from_strs(b"abc", b"def", b"ghi");
    assert!(!grid.matches(&[(9, b'a')]));
    assert!(!grid.matches(&[(0, b'a'), (100, b'a')]));
}

#[test]
fn is_lowercase_looks_at_all_nine_letters() {
    assert!(Grid::from_strs(b"abc", b"def", b"xyz").is_lowercase());
    assert!(!Grid::from_strs(b"Abc", b"def", b"ghi").is_lowercase());
    assert!(!Grid::from_strs(b"abc", b"d-f", b"ghi").is_lowercase());
    assert!(!Grid::from_strs(b"abc", b"def", b"gh1").is_lowercase());
}
