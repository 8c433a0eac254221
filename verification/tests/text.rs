use triword::text::{decimal_len, push_decimal, push_right_aligned, push_spaces};
use triword::{count_grids, Dictionary, Grid, GridLetterCount, HashedDictionary};

fn entries(dict: &Dictionary) -> Vec<String> {
    (0..dict.len()).map(|i| dict.get(i).unwrap().clone()).collect()
}

fn expected_table(counts: &dyn Fn(usize, u8) -> usize) -> String {
    let mut text = String::new();
    for position in 0..9 {
        text.push_str(&format!("slot{}: ", position));
        for letter in b'a'..=b'z' {
            text.push_str(&format!("{}({:7}),", char::from(letter), counts(position, letter)));
        }
        text.push('\n');
    }
    text
}

#[test]
fn grid_renders_between_two_rules() {
    let grid = Grid::from_strs(b"bit", b"ice", b"ten");
    assert_eq!(grid.render(), "-----\n|bit|\n|ice|\n|ten|\n-----\n");
}

#[test]
fn grid_render_replaces_bytes_that_are_no_text() {
    let grid = Grid::from_strs(&[0xff, b'a', b'b'], b"ice", &[0xc3, 0xa9, b'1']);
    assert_eq!(grid.render(), "-----\n|\u{fffd}ab|\n|ice|\n|\u{e9}1|\n-----\n");
}

#[test]
fn frame_rows_takes_rows_of_any_length() {
    assert_eq!(triword::grid::frame_rows("", "a", "long row"), "-----\n||\n|a|\n|long row|\n-----\n");
}

#[test]
fn empty_table_renders_zeros() {
    let text = GridLetterCount::new().render();
    assert_eq!(text, expected_table(&|_, _| 0));
    assert!(text.starts_with("slot0: a(      0),b(      0),"));
    assert!(text.ends_with("z(      0),\n"));
    assert_eq!(text.lines().count(), 9);
}

#[test]
fn table_renders_its_counts() {
    let grids = vec![
        Grid::from_strs(b"abc", b"def", b"ghi"),
        Grid::from_strs(b"abd", b"def", b"zzz"),
    ];
    let table = count_grids(&grids);
    let text = table.render();
    assert_eq!(text, expected_table(&|p, l| table.count(p, l).unwrap()));
    assert!(text.starts_with("slot0: a(      2),b(      0),"));
    assert!(text.contains("\nslot2: a(      0),b(      0),c(      1),d(      1),e(      0),"));
    assert!(text.contains("\nslot8: "));
}

#[test]
fn push_decimal_writes_digits() {
    for n in [0usize, 1, 9, 10, 11, 99, 100, 101, 12345, 9_999_999, 10_000_000, usize::MAX] {
        let mut text = String::from("n=");
        push_decimal(&mut text, n);
        assert_eq!(text, format!("n={}", n));
        assert_eq!(decimal_len(n), format!("{}", n).len());
    }
}

#[test]
fn push_right_aligned_pads_on_the_left() {
    for n in [0usize, 7, 42, 999_999, 1_000_000, 9_999_999, 10_000_000, usize::MAX] {
        let mut text = String::from("(");
        push_right_aligned(&mut text, n, 7);
        assert_eq!(text, format!("({:7}", n));
    }
    let mut text = String::new();
    push_right_aligned(&mut text, 5, 0);
    assert_eq!(text, "5");
    let mut text = String::new();
    push_right_aligned(&mut text, 5, 3);
    assert_eq!(text, "  5");
}

#[test]
fn push_spaces_appends_spaces() {
    let mut text = String::from("x");
    push_spaces(&mut text, 0);
    assert_eq!(text, "x");
    push_spaces(&mut text, 3);
    assert_eq!(text, "x   ");
}

#[test]
fn from_text_splits_at_line_feeds() {
    assert_eq!(entries(&Dictionary::from_text("bat\near\nart")), vec!["bat", "ear", "art"]);
    assert_eq!(entries(&Dictionary::from_text("bat")), vec!["bat"]);
    assert_eq!(entries(&Dictionary::from_text("")), vec![""]);
    assert_eq!(entries(&Dictionary::from_text("bat\n")), vec!["bat", ""]);
    assert_eq!(entries(&Dictionary::from_text("\nbat\n\near")), vec!["", "bat", "", "ear"]);
    assert_eq!(entries(&Dictionary::from_text("a b\r\n日本語")), vec!["a b\r", "日本語"]);
}

#[test]
fn from_text_agrees_with_split() {
    for text in ["", "\n", "\n\n", "one", "one\ntwo", "one\ntwo\n", "é1\nbat\nx"] {
        let expected: Vec<String> = text.split("\n").map(|s| s.to_string()).collect();
        assert_eq!(entries(&Dictionary::from_text(text)), expected);
    }
}

#[test]
fn append_puts_the_other_list_last() {
    let mut dict = Dictionary::from_text("bat\near");
    dict.append(Dictionary::from_text("art\nbat"));
    assert_eq!(entries(&dict), vec!["bat", "ear", "art", "bat"]);
    dict.append(Dictionary::new(Vec::new()));
    assert_eq!(dict.len(), 4);
    let built = HashedDictionary::build(&dict);
    assert_eq!(built.len(), 3);
}

#[test]
fn dictionary_is_lowercase_when_every_word_is() {
    let lower = HashedDictionary::build(&Dictionary::from_text("bat\near\nart"));
    assert!(lower.is_lowercase());
    let mixed = HashedDictionary::build(&Dictionary::from_text("bat\nEar\nart"));
    assert!(!mixed.is_lowercase());
    let odd = HashedDictionary::build(&Dictionary::from_text("bat\né1"));
    assert!(!odd.is_lowercase());
    assert!(HashedDictionary::build(&Dictionary::from_text("")).is_lowercase());
}
