use triword::{
    count_grids, count_grids_filtered, enumerate_grids, Dictionary, Grid, GridLetterCount,
    HashedDictionary, PrefixIndex,
};

fn cells(table: &GridLetterCount) -> Vec<Vec<usize>> {
    (0..9)
        .map(|p| (b'a'..=b'z').map(|l| table.count(p, l).unwrap()).collect())
        .collect()
}

fn row_total(table: &GridLetterCount, position: usize) -> usize {
    (b'a'..=b'z').map(|l| table.count(position, l).unwrap()).sum()
}

fn fixture() -> Vec<Grid> {
    let entries = ["bit", "ice", "ten", "bat", "are", "tea", "ate", "bad", "era", "tar", "toe", "ear"];
    let dict =
        HashedDictionary::build(&Dictionary::new(entries.iter().map(|e| e.to_string()).collect()));
    enumerate_grids(&dict, &PrefixIndex::build(&dict))
}

#[test]
fn new_table_is_all_zero() {
    let table = GridLetterCount::new();
    assert_eq!(cells(&table), vec![vec![0; 26]; 9]);
}

#[test]
fn count_rejects_cells_outside_the_table() {
    let table = GridLetterCount::new();
    assert_eq!(table.count(0, b'a'), Some(0));
    assert_eq!(table.count(8, b'z'), Some(0));
    assert_eq!(table.count(9, b'a'), None);
    assert_eq!(table.count(0, b'A'), None);
    assert_eq!(table.count(0, b'`'), None);
    assert_eq!(table.count(0, b'{'), None);
}

#[test]
fn increment_counts_each_letter_at_its_position() {
    let mut table = GridLetterCount::new();
    table.increment(&Grid::from_strs(b"abc", b"def", b"ghi"));
    for (position, letter) in b"abcdefghi".iter().enumerate() {
        assert_eq!(table.count(position, *letter), Some(1));
        assert_eq!(row_total(&table, position), 1);
    }
    table.increment(&Grid::from_strs(b"abd", b"def", b"zzz"));
    assert_eq!(table.count(0, b'a'), Some(2));
    assert_eq!(table.count(1, b'b'), Some(2));
    assert_eq!(table.count(2, b'c'), Some(1));
    assert_eq!(table.count(2, b'd'), Some(1));
    assert_eq!(table.count(6, b'g'), Some(1));
    assert_eq!(table.count(6, b'z'), Some(1));
    assert_eq!(table.count(0, b'z'), Some(0));
}

#[test]
fn merge_adds_cell_by_cell() {
    let mut a = GridLetterCount::new();
    a.increment(&Grid::from_strs(b"abc", b"def", b"ghi"));
    a.increment(&Grid::from_strs(b"abc", b"def", b"ghi"));
    let mut b = GridLetterCount::new();
    b.increment(&Grid::from_strs(b"abc", b"xyz", b"ghi"));
    a.merge(b);
    assert_eq!(a.count(0, b'a'), Some(3));
    assert_eq!(a.count(3, b'd'), Some(2));
    assert_eq!(a.count(3, b'x'), Some(1));
    assert_eq!(a.count(3, b'y'), Some(0));
    assert_eq!(row_total(&a, 3), 3);
}

#[test]
fn merge_is_commutative() {
    let grids = fixture();
    let (left, right) = grids.split_at(4);
    let mut ab = count_grids(&left.to_vec());
    ab.merge(count_grids(&right.to_vec()));
    let mut ba = count_grids(&right.to_vec());
    ba.merge(count_grids(&left.to_vec()));
    assert_eq!(cells(&ab), cells(&ba));
}

#[test]
fn merge_with_the_empty_table_changes_nothing() {
    let grids = fixture();
    let mut merged = count_grids(&grids);
    merged.merge(GridLetterCount::new());
    assert_eq!(cells(&merged), cells(&count_grids(&grids)));
    let mut merged = GridLetterCount::new();
    merged.merge(count_grids(&grids));
    assert_eq!(cells(&merged), cells(&count_grids(&grids)));
}

#[test]
fn count_grids_of_the_fixture() {
    let table = count_grids(&fixture());
    // first letters of the nine grids: b b b b b b t a a
    assert_eq!(table.count(0, b'b'), Some(6));
    assert_eq!(table.count(0, b't'), Some(1));
    assert_eq!(table.count(0, b'a'), Some(2));
    // last letters: n a n a n a e r a
    assert_eq!(table.count(8, b'n'), Some(3));
    assert_eq!(table.count(8, b'a'), Some(4));
    assert_eq!(table.count(8, b'e'), Some(1));
    assert_eq!(table.count(8, b'r'), Some(1));
    for position in 0..9 {
        assert_eq!(row_total(&table, position), 9);
    }
}

#[test]
fn count_grids_of_nothing_is_all_zero() {
    assert_eq!(cells(&count_grids(&Vec::new())), vec![vec![0; 26]; 9]);
    let dict = HashedDictionary::build(&Dictionary::new(vec!["ab".to_string()]));
    let grids = enumerate_grids(&dict, &PrefixIndex::build(&dict));
    assert_eq!(cells(&count_grids(&grids)), vec![vec![0; 26]; 9]);
}

#[test]
fn any_partition_merges_to_the_single_pass() {
    let grids = fixture();
    let whole = cells(&count_grids(&grids));
    for size in 1..=grids.len() {
        let parts: Vec<GridLetterCount> =
            grids.chunks(size).map(|part| count_grids(&part.to_vec())).collect();
        assert_eq!(cells(&GridLetterCount::sum(parts)), whole);
    }
    let mut uneven = Vec::new();
    uneven.push(count_grids(&grids[..1].to_vec()));
    uneven.push(count_grids(&Vec::new()));
    uneven.push(count_grids(&grids[1..7].to_vec()));
    uneven.push(count_grids(&grids[7..].to_vec()));
    assert_eq!(cells(&GridLetterCount::sum(uneven)), whole);
}

#[test]
fn sum_of_no_tables_is_all_zero() {
    assert_eq!(cells(&GridLetterCount::sum(Vec::new())), vec![vec![0; 26]; 9]);
}

#[test]
fn filtered_row_total_is_the_number_of_matching_grids() {
    let mut grids = fixture();
    grids.push(Grid::from_strs(b"aaq", b"bbb", b"ccc"));
    grids.push(Grid::from_strs(b"xyq", b"bbb", b"ccc"));
    let table = count_grids_filtered(&grids, &[(2, b'q')]);
    let expected = grids.iter().filter(|g| g.letter_at(2) == Ok(b'q')).count();
    assert_eq!(expected, 2);
    assert_eq!(row_total(&table, 0), expected);
    assert_eq!(table.count(0, b'a'), Some(1));
    assert_eq!(table.count(0, b'x'), Some(1));
    assert_eq!(table.count(0, b'b'), Some(0));
    let none = count_grids_filtered(&fixture(), &[(2, b'q')]);
    assert_eq!(cells(&none), vec![vec![0; 26]; 9]);
}

#[test]
fn filtered_count_keeps_grids_that_meet_all_constraints() {
    let grids = fixture();
    let table = count_grids_filtered(&grids, &[(0, b'b'), (8, b'a')]);
    // "bit/ice/tea", "bat/are/tea", "bat/ate/tea"
    for position in 0..9 {
        assert_eq!(row_total(&table, position), 3);
    }
    assert_eq!(table.count(1, b'i'), Some(1));
    assert_eq!(table.count(1, b'a'), Some(2));
    assert_eq!(table.count(4, b'c'), Some(1));
    assert_eq!(table.count(4, b'r'), Some(1));
    assert_eq!(table.count(4, b't'), Some(1));
}

#[test]
fn filtered_count_without_constraints_counts_everything() {
    let grids = fixture();
    assert_eq!(cells(&count_grids_filtered(&grids, &[])), cells(&count_grids(&grids)));
}

#[test]
fn constraint_outside_the_grid_matches_nothing() {
    let table = count_grids_filtered(&fixture(), &[(9, b'a')]);
    assert_eq!(cells(&table), vec![vec![0; 26]; 9]);
}

#[test]
fn can_increment_wants_lowercase_and_room() {
    let table = GridLetterCount::new();
    assert!(table.can_increment(&Grid::from_strs(b"abc", b"def", b"ghi")));
    assert!(!table.can_increment(&Grid::from_strs(b"Abc", b"def", b"ghi")));
    assert!(!table.can_increment(&Grid::from_strs(b"abc", b"def", b"gh!")));
}

#[test]
fn can_merge_in_ordinary_tables() {
    let a = count_grids(&fixture());
    let b = count_grids(&fixture());
    assert!(a.can_merge(&b));
    assert!(GridLetterCount::new().can_merge(&a));
}
