//! A 3x3 letter grid: three row words and the three column words read off them.

use vstd::prelude::*;
use crate::dictionary::HashedDictionary;
use crate::text::{byte_chars, lemma_ascii_bytes_decode, lossy_string, lossy_text, push_char};
use crate::word::{Word, all_letters, is_letter, is_lowercase_word};

verus! {

/// Number of cells of a grid.
pub const GRID_CELLS: usize = 9;

/// The letters of the grid with rows `r1`, `r2`, `r3`, row by row from the top left.
pub open spec fn grid_of(r1: Seq<u8>, r2: Seq<u8>, r3: Seq<u8>) -> Seq<u8> {
    r1 + r2 + r3
}

/// Row `r` (0, 1 or 2) of a grid given by its nine letters.
pub open spec fn grid_row(g: Seq<u8>, r: int) -> Seq<u8> {
    seq![g[3 * r], g[3 * r + 1], g[3 * r + 2]]
}

/// Column `c` (0, 1 or 2) of a grid given by its nine letters, read from the top.
pub open spec fn grid_column(g: Seq<u8>, c: int) -> Seq<u8> {
    seq![g[c], g[3 + c], g[6 + c]]
}

/// The word made of the letters at position `idx` of three byte strings.
pub open spec fn cross_word(s1: Seq<u8>, s2: Seq<u8>, s3: Seq<u8>, idx: int) -> Seq<u8> {
    seq![s1[idx], s2[idx], s3[idx]]
}

/// All three columns of the grid are among `words`.
pub open spec fn columns_in(g: Seq<u8>, words: Set<Seq<u8>>) -> bool {
    &&& words.contains(grid_column(g, 0))
    &&& words.contains(grid_column(g, 1))
    &&& words.contains(grid_column(g, 2))
}

/// All three rows of the grid are among `words`.
pub open spec fn rows_in(g: Seq<u8>, words: Set<Seq<u8>>) -> bool {
    &&& words.contains(grid_row(g, 0))
    &&& words.contains(grid_row(g, 1))
    &&& words.contains(grid_row(g, 2))
}

/// The grid has the wanted letter at every constrained position. A constraint on a
/// position outside the grid is met by no grid.
pub open spec fn grid_matches(g: Seq<u8>, constraints: Seq<(usize, u8)>) -> bool {
    forall|i: int|
        0 <= i < constraints.len() ==> (#[trigger] constraints[i]).0 < 9 && g[constraints[i].0 as int]
            == constraints[i].1
}

/// The views of a sequence of grids, in the same order.
pub open spec fn grid_views(grids: Seq<Grid>) -> Seq<Seq<u8>> {
    grids.map_values(|g: Grid| g@)
}

/// The rows of `grid_of(r1, r2, r3)` are `r1`, `r2`, `r3`, and its columns are the cross words.
pub proof fn lemma_grid_of_parts(r1: Seq<u8>, r2: Seq<u8>, r3: Seq<u8>)
    requires
        r1.len() == 3,
        r2.len() == 3,
        r3.len() == 3,
    ensures
        grid_of(r1, r2, r3).len() == 9,
        grid_row(grid_of(r1, r2, r3), 0) == r1,
        grid_row(grid_of(r1, r2, r3), 1) == r2,
        grid_row(grid_of(r1, r2, r3), 2) == r3,
        grid_column(grid_of(r1, r2, r3), 0) == cross_word(r1, r2, r3, 0),
        grid_column(grid_of(r1, r2, r3), 1) == cross_word(r1, r2, r3, 1),
        grid_column(grid_of(r1, r2, r3), 2) == cross_word(r1, r2, r3, 2),
{
    let g = grid_of(r1, r2, r3);
    assert(grid_row(g, 0) =~= r1);
    assert(grid_row(g, 1) =~= r2);
    assert(grid_row(g, 2) =~= r3);
    assert(grid_column(g, 0) =~= cross_word(r1, r2, r3, 0));
    assert(grid_column(g, 1) =~= cross_word(r1, r2, r3, 1));
    assert(grid_column(g, 2) =~= cross_word(r1, r2, r3, 2));
}

/// A grid whose rows are made of letters is made of letters.
pub proof fn lemma_letters_from_rows(g: Seq<u8>)
    requires
        g.len() == 9,
        all_letters(grid_row(g, 0)),
        all_letters(grid_row(g, 1)),
        all_letters(grid_row(g, 2)),
    ensures
        all_letters(g),
{
    assert forall|i: int| 0 <= i < g.len() implies is_letter(#[trigger] g[i]) by {
        let row = grid_row(g, i / 3);
        assert(row[i % 3] == g[i]);
    }
}

/// The line drawn above and below a grid.
pub open spec fn rule_text() -> Seq<char> {
    seq!['-', '-', '-', '-', '-', '\n']
}

/// One row of a grid between its side bars, as a line.
pub open spec fn framed_row(row: Seq<char>) -> Seq<char> {
    seq!['|'] + row + seq!['|', '\n']
}

/// The picture of a grid with the given rows: a rule, the three framed rows, a rule.
pub open spec fn grid_text(row1: Seq<char>, row2: Seq<char>, row3: Seq<char>) -> Seq<char> {
    rule_text() + framed_row(row1) + framed_row(row2) + framed_row(row3) + rule_text()
}

/// Draws the picture of a grid from the text of its rows.
pub fn frame_rows(row1: &str, row2: &str, row3: &str) -> (text: String)
    ensures
        text@ == grid_text(row1@, row2@, row3@),
{
    let mut text = String::new();
    push_rule(&mut text);
    push_framed_row(&mut text, row1);
    push_framed_row(&mut text, row2);
    push_framed_row(&mut text, row3);
    push_rule(&mut text);
    assert(text@ =~= grid_text(row1@, row2@, row3@));
    text
}

fn push_rule(text: &mut String)
    ensures
        final(text)@ == old(text)@ + rule_text(),
{
    let mut i: usize = 0;
    while i < 5
        invariant
            i <= 5,
            text@ == old(text)@ + rule_text().take(i as int),
        decreases 5 - i,
    {
        push_char(text, '-');
        i += 1;
        assert(text@ =~= old(text)@ + rule_text().take(i as int));
    }
    push_char(text, '\n');
    assert(text@ =~= old(text)@ + rule_text());
}

fn push_framed_row(text: &mut String, row: &str)
    ensures
        final(text)@ == old(text)@ + framed_row(row@),
{
    push_char(text, '|');
    text.append(row);
    push_char(text, '|');
    push_char(text, '\n');
    assert(text@ =~= old(text)@ + framed_row(row@));
}

/// Why a grid could not answer a positional query.
#[derive(Debug, Clone, Copy, PartialEq, Eq, Structural)]
pub enum GridError {
    /// The position asked for is not one of the nine cells.
    PositionOutOfRange { position: usize },
}

/// A candidate 3x3 grid. The rows `s1`, `s2`, `s3` are given; the columns `s4`, `s5`, `s6`
/// are derived from them when the grid is made.
#[derive(Debug, Clone, Copy)]
pub struct Grid {
    s1: Word,
    s2: Word,
    s3: Word,
    s4: Word,
    s5: Word,
    s6: Word,
}

impl View for Grid {
    type V = Seq<u8>;

    /// The nine letters, row by row: position 0 is the top left, 8 the bottom right.
    closed spec fn view(&self) -> Seq<u8> {
        grid_of(self.s1@, self.s2@, self.s3@)
    }
}

impl Grid {
    #[verifier::type_invariant]
    spec fn columns_derived(self) -> bool {
        &&& self.s4@ == cross_word(self.s1@, self.s2@, self.s3@, 0)
        &&& self.s5@ == cross_word(self.s1@, self.s2@, self.s3@, 1)
        &&& self.s6@ == cross_word(self.s1@, self.s2@, self.s3@, 2)
    }

    /// A grid always has nine letters.
    pub proof fn lemma_view_len(self)
        ensures
            self@.len() == 9,
    {
    }

    /// Builds the grid with the given rows and derives its columns.
    /// Each row must be exactly three bytes long.
    pub fn from_strs(s1: &[u8], s2: &[u8], s3: &[u8]) -> (grid: Grid)
        requires
            s1@.len() == 3,
            s2@.len() == 3,
            s3@.len() == 3,
        ensures
            grid@ == grid_of(s1@, s2@, s3@),
            grid@.len() == 9,
            grid_row(grid@, 0) == s1@,
            grid_row(grid@, 1) == s2@,
            grid_row(grid@, 2) == s3@,
            grid_column(grid@, 0) == cross_word(s1@, s2@, s3@, 0),
            grid_column(grid@, 1) == cross_word(s1@, s2@, s3@, 1),
            grid_column(grid@, 2) == cross_word(s1@, s2@, s3@, 2),
    {
        let r1: Word = [s1[0], s1[1], s1[2]];
        let r2: Word = [s2[0], s2[1], s2[2]];
        let r3: Word = [s3[0], s3[1], s3[2]];
        let c1 = Self::to_array(s1, s2, s3, 0);
        let c2 = Self::to_array(s1, s2, s3, 1);
        let c3 = Self::to_array(s1, s2, s3, 2);
        proof {
            assert(r1@ =~= s1@);
            assert(r2@ =~= s2@);
            assert(r3@ =~= s3@);
            lemma_grid_of_parts(s1@, s2@, s3@);
        }
        Grid { s1: r1, s2: r2, s3: r3, s4: c1, s5: c2, s6: c3 }
    }

    /// The word read across three byte strings at position `idx`.
    pub fn to_array(s1: &[u8], s2: &[u8], s3: &[u8], idx: usize) -> (word: Word)
        requires
            idx < s1@.len(),
            idx < s2@.len(),
            idx < s3@.len(),
        ensures
            word@ == cross_word(s1@, s2@, s3@, idx as int),
    {
        let word: Word = [s1[idx], s2[idx], s3[idx]];
        assert(word@ =~= cross_word(s1@, s2@, s3@, idx as int));
        word
    }

    /// Tests whether all three columns are words of `dict`. The rows are not looked at:
    /// they are taken to be words already.
    pub fn is_valid(&self, dict: &HashedDictionary) -> (b: bool)
        ensures
            b == columns_in(self@, dict.word_set()),
    {
        proof {
            use_type_invariant(self);
            lemma_grid_of_parts(self.s1@, self.s2@, self.s3@);
        }
        dict.contains(&self.s4) && dict.contains(&self.s5) && dict.contains(&self.s6)
    }

    /// The nine cells in order, each with its position.
    pub fn slot_iter(&self) -> (slots: Vec<(usize, u8)>)
        ensures
            slots@.len() == 9,
            forall|i: int| 0 <= i < 9 ==> #[trigger] slots@[i] == (i as usize, self@[i]),
    {
        let mut slots: Vec<(usize, u8)> = Vec::with_capacity(GRID_CELLS);
        let mut i: usize = 0;
        while i < GRID_CELLS
            invariant
                i <= 9,
                slots@.len() == i,
                forall|j: int| 0 <= j < i ==> #[trigger] slots@[j] == (j as usize, self@[j]),
            decreases 9 - i,
        {
            let letter = self.cell(i);
            slots.push((i, letter));
            i += 1;
        }
        slots
    }

    /// The letter at `position`, top left first; positions past the ninth cell are an error.
    pub fn letter_at(&self, position: usize) -> (res: Result<u8, GridError>)
        ensures
            position < 9 ==> res == Ok::<u8, GridError>(self@[position as int]),
            position >= 9 ==> res == Err::<u8, GridError>(
                GridError::PositionOutOfRange { position },
            ),
    {
        if position < GRID_CELLS {
            Ok(self.cell(position))
        } else {
            Err(GridError::PositionOutOfRange { position })
        }
    }

    fn cell(&self, position: usize) -> (letter: u8)
        requires
            position < 9,
        ensures
            letter == self@[position as int],
    {
        if position < 3 {
            self.s1[position]
        } else if position < 6 {
            self.s2[position - 3]
        } else {
            self.s3[position - 6]
        }
    }

    /// Tests whether the grid has the wanted letter at every constrained position.
    pub fn matches(&self, constraints: &[(usize, u8)]) -> (b: bool)
        ensures
            b == grid_matches(self@, constraints@),
    {
        let n = constraints.len();
        let mut i: usize = 0;
        while i < n
            invariant
                i <= n,
                n == constraints@.len(),
                forall|k: int|
                    0 <= k < i ==> (#[trigger] constraints@[k]).0 < 9 && self@[constraints@[k].0 as int]
                        == constraints@[k].1,
            decreases n - i,
        {
            let (position, letter) = constraints[i];
            if position >= GRID_CELLS || self.cell(position) != letter {
                assert(!(constraints@[i as int].0 < 9 && self@[constraints@[i as int].0 as int]
                    == constraints@[i as int].1));
                return false;
            }
            i += 1;
        }
        true
    }

    /// The picture of the grid: its rows between two rules, bytes that are no valid
    /// UTF-8 replaced as `String::from_utf8_lossy` does.
    pub fn render(&self) -> (text: String)
        ensures
            text@ == grid_text(
                lossy_text(grid_row(self@, 0)),
                lossy_text(grid_row(self@, 1)),
                lossy_text(grid_row(self@, 2)),
            ),
            (forall|i: int| 0 <= i < 9 ==> #[trigger] self@[i] < 128) ==> text@ == grid_text(
                byte_chars(grid_row(self@, 0)),
                byte_chars(grid_row(self@, 1)),
                byte_chars(grid_row(self@, 2)),
            ),
    {
        proof {
            lemma_grid_of_parts(self.s1@, self.s2@, self.s3@);
            if forall|i: int| 0 <= i < 9 ==> #[trigger] self@[i] < 128 {
                assert forall|i: int| 0 <= i < 3 implies #[trigger] self.s1@[i] < 128 by {
                    assert(self@[i] == self.s1@[i]);
                }
                assert forall|i: int| 0 <= i < 3 implies #[trigger] self.s2@[i] < 128 by {
                    assert(self@[i + 3] == self.s2@[i]);
                }
                assert forall|i: int| 0 <= i < 3 implies #[trigger] self.s3@[i] < 128 by {
                    assert(self@[i + 6] == self.s3@[i]);
                }
                lemma_ascii_bytes_decode(self.s1@);
                lemma_ascii_bytes_decode(self.s2@);
                lemma_ascii_bytes_decode(self.s3@);
            }
        }
        let row1 = lossy_string(self.s1.as_slice());
        let row2 = lossy_string(self.s2.as_slice());
        let row3 = lossy_string(self.s3.as_slice());
        frame_rows(row1.as_str(), row2.as_str(), row3.as_str())
    }

    /// The three row words, top to bottom.
    pub fn rows(&self) -> (rows: (Word, Word, Word))
        ensures
            rows.0@ == grid_row(self@, 0),
            rows.1@ == grid_row(self@, 1),
            rows.2@ == grid_row(self@, 2),
    {
        proof {
            lemma_grid_of_parts(self.s1@, self.s2@, self.s3@);
        }
        (self.s1, self.s2, self.s3)
    }

    /// The three column words, left to right.
    pub fn columns(&self) -> (columns: (Word, Word, Word))
        ensures
            columns.0@ == grid_column(self@, 0),
            columns.1@ == grid_column(self@, 1),
            columns.2@ == grid_column(self@, 2),
    {
        proof {
            use_type_invariant(self);
            lemma_grid_of_parts(self.s1@, self.s2@, self.s3@);
        }
        (self.s4, self.s5, self.s6)
    }

    /// Tests whether all nine letters are lowercase ASCII letters.
    pub fn is_lowercase(&self) -> (b: bool)
        ensures
            b == all_letters(self@),
    {
        let b = is_lowercase_word(&self.s1) && is_lowercase_word(&self.s2) && is_lowercase_word(
            &self.s3,
        );
        proof {
            let g = self@;
            if b {
                assert forall|i: int| 0 <= i < g.len() implies is_letter(
                    #[trigger] g[i],
                ) by {
                    if i < 3 {
                        assert(g[i] == self.s1@[i]);
                    } else if i < 6 {
                        assert(g[i] == self.s2@[i - 3]);
                    } else {
                        assert(g[i] == self.s3@[i - 6]);
                    }
                }
            } else if !all_letters(self.s1@) {
                let i = choose|i: int| 0 <= i < 3 && !is_letter(self.s1@[i]);
                assert(g[i] == self.s1@[i]);
            } else if !all_letters(self.s2@) {
                let i = choose|i: int| 0 <= i < 3 && !is_letter(self.s2@[i]);
                assert(g[i + 3] == self.s2@[i]);
            } else {
                let i = choose|i: int| 0 <= i < 3 && !is_letter(self.s3@[i]);
                assert(g[i + 6] == self.s3@[i]);
            }
        }
        b
    }
}

} // verus!
