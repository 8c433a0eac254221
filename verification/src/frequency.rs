//! Letter frequencies per grid position: a 9 x 26 table of counts, filled grid by grid
//! and merged table by table.

use vstd::prelude::*;
use crate::grid::{Grid, grid_matches, grid_views};
use crate::text::{decimal, push_char, push_decimal, push_right_aligned, right_aligned};
use crate::word::{FIRST_LETTER, LAST_LETTER, all_letters, is_letter};

verus! {

/// Number of positions of a grid, and of rows of a table.
pub const POSITIONS: usize = 9;

/// Number of letters, and of columns of a table.
pub const LETTERS: usize = 26;

/// The column of a letter: 0 for `'a'`, 25 for `'z'`.
pub open spec fn letter_index(b: u8) -> int {
    b - FIRST_LETTER
}

/// A table has nine rows of twenty-six counts.
pub open spec fn is_table(t: Seq<Seq<nat>>) -> bool {
    &&& t.len() == 9
    &&& forall|p: int| 0 <= p < 9 ==> (#[trigger] t[p]).len() == 26
}

/// The table of all zeros.
pub open spec fn empty_table() -> Seq<Seq<nat>> {
    Seq::new(9, |p: int| Seq::new(26, |l: int| 0nat))
}

/// The table of a single grid: one in the cell of each position's letter, zero elsewhere.
pub open spec fn grid_table(g: Seq<u8>) -> Seq<Seq<nat>> {
    Seq::new(
        9,
        |p: int|
            Seq::new(
                26,
                |l: int|
                    if letter_index(g[p]) == l {
                        1nat
                    } else {
                        0nat
                    },
            ),
    )
}

/// The cell by cell sum of two tables.
pub open spec fn table_sum(a: Seq<Seq<nat>>, b: Seq<Seq<nat>>) -> Seq<Seq<nat>> {
    Seq::new(9, |p: int| Seq::new(26, |l: int| a[p][l] + b[p][l]))
}

/// How many of `grids` have the letter of column `letter` at `position`.
pub open spec fn occurrences(grids: Seq<Seq<u8>>, position: int, letter: int) -> nat {
    grids.filter(|g: Seq<u8>| letter_index(g[position]) == letter).len()
}

/// The frequency table of a collection of grids: each cell counts the grids that have
/// that letter at that position.
pub open spec fn tally(grids: Seq<Seq<u8>>) -> Seq<Seq<nat>> {
    Seq::new(9, |p: int| Seq::new(26, |l: int| occurrences(grids, p, l)))
}

/// The sum of a sequence of tables, the empty table for none.
pub open spec fn merge_all(tables: Seq<Seq<Seq<nat>>>) -> Seq<Seq<nat>>
    decreases tables.len(),
{
    if tables.len() == 0 {
        empty_table()
    } else {
        table_sum(merge_all(tables.drop_last()), tables.last())
    }
}

/// The total of one row of a table over its first `n` columns.
pub open spec fn row_prefix_total(row: Seq<nat>, n: nat) -> nat
    decreases n,
{
    if n == 0 {
        0
    } else {
        row_prefix_total(row, (n - 1) as nat) + row[n - 1]
    }
}

/// The total of the row of `position` over all letters.
pub open spec fn row_total(t: Seq<Seq<nat>>, position: int) -> nat {
    row_prefix_total(t[position], 26)
}

/// The grids among `grids` that match every constraint, in order.
pub open spec fn matching_grids(grids: Seq<Seq<u8>>, constraints: Seq<(usize, u8)>) -> Seq<
    Seq<u8>,
> {
    grids.filter(|g: Seq<u8>| grid_matches(g, constraints))
}

/// The character of the letter of column `letter`.
pub open spec fn letter_char(letter: int) -> char {
    (97 + letter) as u8 as char
}

/// Width of the field in which a count is printed.
pub const COUNT_WIDTH: usize = 7;

/// One cell as text: the letter, then its count in brackets, then a comma.
pub open spec fn cell_text(letter: int, count: nat) -> Seq<char> {
    seq![letter_char(letter), '('] + right_aligned(decimal(count), 7) + seq![')', ',']
}

/// The first `n` cells of a row as text.
pub open spec fn cells_text(row: Seq<nat>, n: nat) -> Seq<char>
    decreases n,
{
    if n == 0 {
        Seq::empty()
    } else {
        cells_text(row, (n - 1) as nat) + cell_text(n - 1, row[n - 1])
    }
}

/// One row as a line of text: the position, then the 26 cells.
pub open spec fn row_text(position: int, row: Seq<nat>) -> Seq<char> {
    seq!['s', 'l', 'o', 't'] + decimal(position as nat) + seq![':', ' '] + cells_text(row, 26)
        + seq!['\n']
}

/// The first `n` rows of a table as text.
pub open spec fn rows_text(t: Seq<Seq<nat>>, n: nat) -> Seq<char>
    decreases n,
{
    if n == 0 {
        Seq::empty()
    } else {
        rows_text(t, (n - 1) as nat) + row_text(n - 1, t[n - 1])
    }
}

/// A table as text, one line for each position.
pub open spec fn table_text(t: Seq<Seq<nat>>) -> Seq<char> {
    rows_text(t, 9)
}

/// The views of a sequence of tables, in the same order.
pub open spec fn table_views(tables: Seq<GridLetterCount>) -> Seq<Seq<Seq<nat>>> {
    tables.map_values(|t: GridLetterCount| t@)
}

/// Merging is commutative.
pub proof fn lemma_merge_commutative(a: Seq<Seq<nat>>, b: Seq<Seq<nat>>)
    ensures
        table_sum(a, b) == table_sum(b, a),
{
    assert(table_sum(a, b) =~~= table_sum(b, a));
}

/// Merging is associative.
pub proof fn lemma_merge_associative(a: Seq<Seq<nat>>, b: Seq<Seq<nat>>, c: Seq<Seq<nat>>)
    ensures
        table_sum(table_sum(a, b), c) == table_sum(a, table_sum(b, c)),
{
    assert(table_sum(table_sum(a, b), c) =~~= table_sum(a, table_sum(b, c)));
}

/// The empty table is the identity of merging, on either side.
pub proof fn lemma_merge_identity(a: Seq<Seq<nat>>)
    requires
        is_table(a),
    ensures
        table_sum(a, empty_table()) == a,
        table_sum(empty_table(), a) == a,
{
    assert(table_sum(a, empty_table()) =~~= a);
    assert(table_sum(empty_table(), a) =~~= a);
}

/// Every tally is a table, and no cell exceeds the number of grids.
pub proof fn lemma_tally_is_table(grids: Seq<Seq<u8>>)
    ensures
        is_table(tally(grids)),
        forall|p: int, l: int|
            0 <= p < 9 && 0 <= l < 26 ==> #[trigger] tally(grids)[p][l] <= grids.len(),
{
    assert forall|p: int, l: int| 0 <= p < 9 && 0 <= l < 26 implies #[trigger] tally(grids)[p][l]
        <= grids.len() by {
        grids.lemma_filter_len(|g: Seq<u8>| letter_index(g[p]) == l);
    }
}

/// The tally of no grids is the empty table.
pub proof fn lemma_tally_empty()
    ensures
        tally(Seq::empty()) == empty_table(),
{
    reveal(Seq::filter);
    assert(tally(Seq::empty()) =~~= empty_table());
}

/// Counting one more grid adds that grid's table.
pub proof fn lemma_tally_push(grids: Seq<Seq<u8>>, g: Seq<u8>)
    ensures
        tally(grids.push(g)) == table_sum(tally(grids), grid_table(g)),
{
    assert forall|p: int, l: int| 0 <= p < 9 && 0 <= l < 26 implies #[trigger] tally(
        grids.push(g),
    )[p][l] == table_sum(tally(grids), grid_table(g))[p][l] by {
        grids.lemma_filter_push(g, |g: Seq<u8>| letter_index(g[p]) == l);
    }
    assert(tally(grids.push(g)) =~~= table_sum(tally(grids), grid_table(g)));
}

/// The tally of two collections put together is the merge of their tallies.
pub proof fn lemma_tally_concat(a: Seq<Seq<u8>>, b: Seq<Seq<u8>>)
    ensures
        tally(a + b) == table_sum(tally(a), tally(b)),
{
    assert forall|p: int, l: int| 0 <= p < 9 && 0 <= l < 26 implies #[trigger] tally(a + b)[p][l]
        == table_sum(tally(a), tally(b))[p][l] by {
        Seq::filter_distributes_over_add(a, b, |g: Seq<u8>| letter_index(g[p]) == l);
    }
    assert(tally(a + b) =~~= table_sum(tally(a), tally(b)));
}

/// However a collection of grids is split into parts, merging the tallies of the parts
/// gives the tally of the whole.
pub proof fn lemma_tally_of_partition(parts: Seq<Seq<Seq<u8>>>)
    ensures
        merge_all(parts.map_values(|part: Seq<Seq<u8>>| tally(part))) == tally(parts.flatten()),
    decreases parts.len(),
{
    let each = |part: Seq<Seq<u8>>| tally(part);
    if parts.len() == 0 {
        assert(parts.flatten() =~= Seq::<Seq<u8>>::empty());
        lemma_tally_empty();
    } else {
        let front = parts.drop_last();
        let back = parts.last();
        assert(parts =~= front.push(back));
        lemma_tally_of_partition(front);
        front.lemma_flatten_push(back);
        lemma_tally_concat(front.flatten(), back);
        assert(parts.map_values(each).drop_last() =~= front.map_values(each));
    }
}

/// No cell of a partial merge exceeds the same cell of the full merge.
pub proof fn lemma_merge_all_grows(tables: Seq<Seq<Seq<nat>>>, n: int)
    requires
        0 <= n <= tables.len(),
    ensures
        is_table(merge_all(tables.take(n))),
        forall|p: int, l: int|
            0 <= p < 9 && 0 <= l < 26 ==> #[trigger] merge_all(tables.take(n))[p][l] <= merge_all(
                tables,
            )[p][l],
    decreases tables.len() - n,
{
    if n == tables.len() {
        assert(tables.take(n) =~= tables);
    } else {
        lemma_merge_all_grows(tables, n + 1);
        let longer = tables.take(n + 1);
        assert(longer.drop_last() =~= tables.take(n));
        assert(merge_all(longer) == table_sum(merge_all(tables.take(n)), longer.last()));
        assert forall|p: int, l: int| 0 <= p < 9 && 0 <= l < 26 implies #[trigger] merge_all(
            tables.take(n),
        )[p][l] <= merge_all(tables)[p][l] by {
            assert(merge_all(longer)[p][l] == merge_all(tables.take(n))[p][l] + longer.last()[p][l]);
            assert(merge_all(longer)[p][l] <= merge_all(tables)[p][l]);
        }
    }
    if n == 0 {
        assert(tables.take(0).len() == 0);
    } else {
        assert(tables.take(n).len() > 0);
    }
}

/// In the table of one grid of letters, every row totals one.
pub proof fn lemma_grid_table_row_total(g: Seq<u8>, position: int)
    requires
        0 <= position < 9,
        is_letter(g[position]),
    ensures
        row_total(grid_table(g), position) == 1,
{
    let row = grid_table(g)[position];
    let at = letter_index(g[position]);
    assert forall|n: nat| n <= 26 implies #[trigger] row_prefix_total(row, n) == (if n > at {
        1nat
    } else {
        0nat
    }) by {
        lemma_indicator_prefix(row, at, n);
    }
}

proof fn lemma_indicator_prefix(row: Seq<nat>, at: int, n: nat)
    requires
        row.len() == 26,
        0 <= at < 26,
        n <= 26,
        forall|l: int| 0 <= l < 26 ==> #[trigger] row[l] == (if l == at { 1nat } else { 0nat }),
    ensures
        row_prefix_total(row, n) == (if n > at { 1nat } else { 0nat }),
    decreases n,
{
    if n > 0 {
        lemma_indicator_prefix(row, at, (n - 1) as nat);
    }
}

proof fn lemma_row_prefix_total_sum(a: Seq<Seq<nat>>, b: Seq<Seq<nat>>, position: int, n: nat)
    requires
        0 <= position < 9,
        n <= 26,
    ensures
        row_prefix_total(table_sum(a, b)[position], n) == row_prefix_total(a[position], n)
            + row_prefix_total(b[position], n),
    decreases n,
{
    if n > 0 {
        lemma_row_prefix_total_sum(a, b, position, (n - 1) as nat);
    }
}

/// The row total of a merge is the sum of the row totals.
pub proof fn lemma_row_total_sum(a: Seq<Seq<nat>>, b: Seq<Seq<nat>>, position: int)
    requires
        0 <= position < 9,
    ensures
        row_total(table_sum(a, b), position) == row_total(a, position) + row_total(b, position),
{
    lemma_row_prefix_total_sum(a, b, position, 26);
}

/// In the tally of grids of letters, every row totals the number of grids: each grid
/// has exactly one letter at each position.
pub proof fn lemma_row_total_counts_grids(grids: Seq<Seq<u8>>, position: int)
    requires
        0 <= position < 9,
        forall|i: int| 0 <= i < grids.len() ==> is_letter(#[trigger] grids[i][position]),
    ensures
        row_total(tally(grids), position) == grids.len(),
    decreases grids.len(),
{
    if grids.len() == 0 {
        assert(grids =~= Seq::<Seq<u8>>::empty());
        lemma_tally_empty();
        lemma_zero_row_total(position, 26);
    } else {
        let front = grids.drop_last();
        let g = grids.last();
        assert(grids =~= front.push(g));
        assert forall|i: int| 0 <= i < front.len() implies is_letter(
            #[trigger] front[i][position],
        ) by {
            assert(front[i] == grids[i]);
        }
        lemma_row_total_counts_grids(front, position);
        lemma_tally_push(front, g);
        lemma_row_total_sum(tally(front), grid_table(g), position);
        assert(is_letter(grids[grids.len() - 1][position]));
        lemma_grid_table_row_total(g, position);
    }
}

proof fn lemma_zero_row_total(position: int, n: nat)
    requires
        0 <= position < 9,
        n <= 26,
    ensures
        row_prefix_total(empty_table()[position], n) == 0,
    decreases n,
{
    if n > 0 {
        lemma_zero_row_total(position, (n - 1) as nat);
    }
}

/// In the tally of the grids that match a set of constraints, every row totals the
/// number of matching grids.
pub proof fn lemma_filtered_row_total(
    grids: Seq<Seq<u8>>,
    constraints: Seq<(usize, u8)>,
    position: int,
)
    requires
        0 <= position < 9,
        forall|i: int|
            0 <= i < grids.len() && grid_matches(grids[i], constraints) ==> is_letter(
                #[trigger] grids[i][position],
            ),
    ensures
        row_total(tally(matching_grids(grids, constraints)), position) == matching_grids(
            grids,
            constraints,
        ).len(),
{
    let pred = |g: Seq<u8>| grid_matches(g, constraints);
    let kept = grids.filter(pred);
    assert forall|i: int| 0 <= i < kept.len() implies is_letter(#[trigger] kept[i][position]) by {
        grids.lemma_filter_pred(pred, i);
        assert(kept.contains(kept[i]));
        grids.lemma_filter_contains_rev(pred, kept[i]);
        let j = choose|j: int| 0 <= j < grids.len() && grids[j] == kept[i];
        assert(is_letter(grids[j][position]));
    }
    lemma_row_total_counts_grids(kept, position);
}

/// Counts, for each of the nine grid positions, how often each of the 26 letters stands
/// there in the grids counted so far.
pub struct GridLetterCount([[usize; 26]; 9]);

impl View for GridLetterCount {
    type V = Seq<Seq<nat>>;

    /// The counts as a table: row `p`, column `l` is the count of letter `l` at position `p`.
    closed spec fn view(&self) -> Seq<Seq<nat>> {
        Seq::new(9, |p: int| Seq::new(26, |l: int| self.0@[p]@[l] as nat))
    }
}

impl GridLetterCount {
    /// The view of a table of counts is a table, and each of its counts fits a `usize`.
    pub proof fn lemma_view_is_table(&self)
        ensures
            is_table(self@),
            forall|p: int, l: int| 0 <= p < 9 && 0 <= l < 26 ==> #[trigger] self@[p][l] <= usize::MAX,
    {
    }

    /// The empty table: every count is zero.
    pub fn new() -> (table: GridLetterCount)
        ensures
            table@ == empty_table(),
    {
        let table = GridLetterCount([[0usize; 26]; 9]);
        assert(table@ =~~= empty_table());
        table
    }

    /// Whether `grid` can be counted without any count passing `usize::MAX`.
    pub open spec fn has_room_for(&self, g: Seq<u8>) -> bool {
        forall|p: int| 0 <= p < 9 ==> #[trigger] self@[p][letter_index(g[p])] < usize::MAX
    }

    /// Whether `other` can be merged in without any count passing `usize::MAX`.
    pub open spec fn has_room_for_table(&self, other: Seq<Seq<nat>>) -> bool {
        forall|p: int, l: int|
            0 <= p < 9 && 0 <= l < 26 ==> #[trigger] self@[p][l] + other[p][l] <= usize::MAX
    }

    /// Counts one grid: at each position, the count of the letter found there goes up by
    /// one. The grid must be made of lowercase letters, and the counts must have room.
    pub fn increment(&mut self, grid: &Grid)
        requires
            all_letters(grid@),
            old(self).has_room_for(grid@),
        ensures
            final(self)@ == table_sum(old(self)@, grid_table(grid@)),
    {
        proof {
            grid.lemma_view_len();
        }
        let slots = grid.slot_iter();
        let mut i: usize = 0;
        while i < POSITIONS
            invariant
                i <= 9,
                grid@.len() == 9,
                all_letters(grid@),
                old(self).has_room_for(grid@),
                slots@.len() == 9,
                forall|p: int| 0 <= p < 9 ==> #[trigger] slots@[p] == (p as usize, grid@[p]),
                forall|p: int, l: int|
                    0 <= p < 9 && 0 <= l < 26 ==> #[trigger] self@[p][l] == old(self)@[p][l] + (if p
                        < i && letter_index(grid@[p]) == l {
                        1nat
                    } else {
                        0nat
                    }),
            decreases 9 - i,
        {
            let (position, letter) = slots[i];
            assert(slots@[i as int] == (i, grid@[i as int]));
            assert(is_letter(grid@[i as int]));
            let column = (letter - FIRST_LETTER) as usize;
            let ghost before = self@;
            assert(before[i as int][column as int] == old(self)@[i as int][letter_index(
                grid@[i as int],
            )]);
            self.0[position][column] = self.0[position][column] + 1;
            assert forall|p: int, l: int| 0 <= p < 9 && 0 <= l < 26 implies #[trigger] self@[p][l]
                == before[p][l] + (if p == i && l == column { 1nat } else { 0nat }) by {}
            i += 1;
        }
        assert(self@ =~~= table_sum(old(self)@, grid_table(grid@)));
    }

    /// Adds the counts of `grid_count` to this table, cell by cell.
    pub fn merge(&mut self, grid_count: GridLetterCount)
        requires
            old(self).has_room_for_table(grid_count@),
        ensures
            final(self)@ == table_sum(old(self)@, grid_count@),
    {
        self.add_table(&grid_count);
    }

    fn add_table(&mut self, other: &GridLetterCount)
        requires
            old(self).has_room_for_table(other@),
        ensures
            final(self)@ == table_sum(old(self)@, other@),
    {
        let mut p: usize = 0;
        while p < POSITIONS
            invariant
                p <= 9,
                old(self).has_room_for_table(other@),
                forall|q: int, l: int|
                    0 <= q < 9 && 0 <= l < 26 ==> #[trigger] self@[q][l] == old(self)@[q][l] + (if q
                        < p {
                        other@[q][l]
                    } else {
                        0nat
                    }),
            decreases 9 - p,
        {
            let mut l: usize = 0;
            while l < LETTERS
                invariant
                    p < 9,
                    l <= 26,
                    old(self).has_room_for_table(other@),
                    forall|q: int, m: int|
                        0 <= q < 9 && 0 <= m < 26 ==> #[trigger] self@[q][m] == old(self)@[q][m]
                            + (if q < p || (q == p && m < l) {
                            other@[q][m]
                        } else {
                            0nat
                        }),
                decreases 26 - l,
            {
                let ghost before = self@;
                assert(before[p as int][l as int] == old(self)@[p as int][l as int]);
                assert(old(self)@[p as int][l as int] + other@[p as int][l as int] <= usize::MAX);
                self.0[p][l] = self.0[p][l] + other.0[p][l];
                assert forall|q: int, m: int| 0 <= q < 9 && 0 <= m < 26 implies #[trigger] self@[q][m]
                    == before[q][m] + (if q == p && m == l { other@[q][m] } else { 0nat }) by {}
                l += 1;
            }
            p += 1;
        }
        assert(self@ =~~= table_sum(old(self)@, other@));
    }

    /// Tests whether `grid` is made of lowercase letters and can be counted without any
    /// count passing `usize::MAX`, that is, whether `increment` may be called with it.
    pub fn can_increment(&self, grid: &Grid) -> (ok: bool)
        ensures
            ok == (all_letters(grid@) && self.has_room_for(grid@)),
    {
        proof {
            grid.lemma_view_len();
        }
        if !grid.is_lowercase() {
            return false;
        }
        let slots = grid.slot_iter();
        let mut i: usize = 0;
        while i < POSITIONS
            invariant
                i <= 9,
                grid@.len() == 9,
                all_letters(grid@),
                slots@.len() == 9,
                forall|p: int| 0 <= p < 9 ==> #[trigger] slots@[p] == (p as usize, grid@[p]),
                forall|p: int| 0 <= p < i ==> #[trigger] self@[p][letter_index(grid@[p])] < usize::MAX,
            decreases 9 - i,
        {
            let (position, letter) = slots[i];
            assert(slots@[i as int] == (i, grid@[i as int]));
            assert(is_letter(grid@[i as int]));
            if self.0[position][(letter - FIRST_LETTER) as usize] == usize::MAX {
                assert(!(self@[i as int][letter_index(grid@[i as int])] < usize::MAX));
                return false;
            }
            i += 1;
        }
        true
    }

    /// Tests whether `other` can be merged in without any count passing `usize::MAX`, that
    /// is, whether `merge` may be called with it.
    pub fn can_merge(&self, other: &GridLetterCount) -> (ok: bool)
        ensures
            ok == self.has_room_for_table(other@),
    {
        let mut p: usize = 0;
        while p < POSITIONS
            invariant
                p <= 9,
                forall|q: int, l: int|
                    0 <= q < p && 0 <= l < 26 ==> #[trigger] self@[q][l] + other@[q][l] <= usize::MAX,
            decreases 9 - p,
        {
            let mut l: usize = 0;
            while l < LETTERS
                invariant
                    p < 9,
                    l <= 26,
                    forall|q: int, m: int|
                        0 <= q < 9 && 0 <= m < 26 && (q < p || (q == p && m < l))
                            ==> #[trigger] self@[q][m] + other@[q][m] <= usize::MAX,
                decreases 26 - l,
            {
                if self.0[p][l] > usize::MAX - other.0[p][l] {
                    assert(!(self@[p as int][l as int] + other@[p as int][l as int] <= usize::MAX));
                    return false;
                }
                l += 1;
            }
            p += 1;
        }
        true
    }

    /// Merges a list of tables into one; the empty table for an empty list. The merged
    /// counts must fit a `usize`.
    pub fn sum(tables: Vec<GridLetterCount>) -> (total: GridLetterCount)
        requires
            forall|p: int, l: int|
                0 <= p < 9 && 0 <= l < 26 ==> #[trigger] merge_all(table_views(tables@))[p][l]
                    <= usize::MAX,
        ensures
            total@ == merge_all(table_views(tables@)),
    {
        let ghost views = table_views(tables@);
        let mut total = GridLetterCount::new();
        let n = tables.len();
        let mut i: usize = 0;
        proof {
            assert(views.take(0).len() == 0);
        }
        while i < n
            invariant
                i <= n,
                n == tables@.len(),
                views == table_views(tables@),
                total@ == merge_all(views.take(i as int)),
                forall|p: int, l: int|
                    0 <= p < 9 && 0 <= l < 26 ==> #[trigger] merge_all(views)[p][l] <= usize::MAX,
            decreases n - i,
        {
            proof {
                let longer = views.take(i + 1);
                assert(longer.drop_last() =~= views.take(i as int));
                assert(longer.last() == tables@[i as int]@);
                lemma_merge_all_grows(views, i + 1);
                assert forall|p: int, l: int| 0 <= p < 9 && 0 <= l < 26 implies #[trigger] total@[p][l]
                    + tables@[i as int]@[p][l] <= usize::MAX by {
                    assert(merge_all(longer)[p][l] == total@[p][l] + tables@[i as int]@[p][l]);
                    assert(merge_all(longer)[p][l] <= merge_all(views)[p][l]);
                }
            }
            total.add_table(&tables[i]);
            i += 1;
        }
        proof {
            assert(views.take(n as int) =~= views);
        }
        total
    }

    /// The table as text: one line for each position, each line naming the position and
    /// listing the 26 letters with their counts.
    pub fn render(&self) -> (text: String)
        ensures
            text@ == table_text(self@),
    {
        let mut text = String::new();
        let mut p: usize = 0;
        assert(text@ =~= rows_text(self@, 0));
        while p < POSITIONS
            invariant
                p <= 9,
                text@ == rows_text(self@, p as nat),
            decreases 9 - p,
        {
            let ghost start = text@;
            push_char(&mut text, 's');
            push_char(&mut text, 'l');
            push_char(&mut text, 'o');
            push_char(&mut text, 't');
            push_decimal(&mut text, p);
            push_char(&mut text, ':');
            push_char(&mut text, ' ');
            let ghost head = text@;
            let mut l: usize = 0;
            assert(text@ =~= head + cells_text(self@[p as int], 0));
            while l < LETTERS
                invariant
                    p < 9,
                    l <= 26,
                    text@ == head + cells_text(self@[p as int], l as nat),
                decreases 26 - l,
            {
                let ghost before = text@;
                push_char(&mut text, (FIRST_LETTER + l as u8) as char);
                push_char(&mut text, '(');
                push_right_aligned(&mut text, self.0[p][l], COUNT_WIDTH);
                push_char(&mut text, ')');
                push_char(&mut text, ',');
                assert(text@ =~= before + cell_text(l as int, self@[p as int][l as int]));
                l += 1;
                assert(text@ =~= head + cells_text(self@[p as int], l as nat));
            }
            push_char(&mut text, '\n');
            assert(head =~= start + seq!['s', 'l', 'o', 't'] + decimal(p as nat) + seq![':', ' ']);
            assert(text@ =~= start + row_text(p as int, self@[p as int]));
            p += 1;
        }
        text
    }

    /// The count of `letter` at `position`, if the position is one of the nine and the
    /// letter one of the 26.
    pub fn count(&self, position: usize, letter: u8) -> (count: Option<usize>)
        ensures
            position < 9 && is_letter(letter) ==> count == Some(
                self@[position as int][letter_index(letter)] as usize,
            ),
            !(position < 9 && is_letter(letter)) ==> count is None,
    {
        if position < POSITIONS && FIRST_LETTER <= letter && letter <= LAST_LETTER {
            Some(self.0[position][(letter - FIRST_LETTER) as usize])
        } else {
            None
        }
    }
}

/// Counts every grid of the collection: the frequency table of the whole collection.
/// The grids must be made of lowercase letters.
pub fn count_grids(grids: &Vec<Grid>) -> (table: GridLetterCount)
    requires
        forall|i: int| 0 <= i < grids@.len() ==> all_letters((#[trigger] grids@[i])@),
    ensures
        table@ == tally(grid_views(grids@)),
{
    let ghost views = grid_views(grids@);
    let mut table = GridLetterCount::new();
    let n = grids.len();
    let mut i: usize = 0;
    proof {
        lemma_tally_empty();
        assert(views.take(0) =~= Seq::<Seq<u8>>::empty());
    }
    while i < n
        invariant
            i <= n,
            n == grids@.len(),
            views == grid_views(grids@),
            forall|k: int| 0 <= k < grids@.len() ==> all_letters((#[trigger] grids@[k])@),
            table@ == tally(views.take(i as int)),
        decreases n - i,
    {
        let grid = &grids[i];
        proof {
            grid.lemma_view_len();
            assert(views.take(i + 1) =~= views.take(i as int).push(grid@));
            lemma_tally_push(views.take(i as int), grid@);
            lemma_tally_is_table(views.take(i as int));
            assert forall|p: int| 0 <= p < 9 implies #[trigger] table@[p][letter_index(grid@[p])]
                < usize::MAX by {
                assert(is_letter(grid@[p]));
                assert(tally(views.take(i as int))[p][letter_index(grid@[p])] <= i);
            }
        }
        table.increment(grid);
        i += 1;
    }
    proof {
        assert(views.take(n as int) =~= views);
    }
    table
}

/// Counts only the grids that match every constraint: the frequency table of the grids
/// that have the wanted letter at each constrained position. The matching grids must be
/// made of lowercase letters.
pub fn count_grids_filtered(grids: &Vec<Grid>, constraints: &[(usize, u8)]) -> (table:
    GridLetterCount)
    requires
        forall|i: int|
            0 <= i < grids@.len() && grid_matches((#[trigger] grids@[i])@, constraints@)
                ==> all_letters(grids@[i]@),
    ensures
        table@ == tally(matching_grids(grid_views(grids@), constraints@)),
{
    let ghost views = grid_views(grids@);
    let ghost wanted = |g: Seq<u8>| grid_matches(g, constraints@);
    let mut table = GridLetterCount::new();
    let n = grids.len();
    let mut i: usize = 0;
    proof {
        lemma_tally_empty();
        assert(views.take(0) =~= Seq::<Seq<u8>>::empty());
        reveal(Seq::filter);
        assert(matching_grids(views.take(0), constraints@) =~= Seq::<Seq<u8>>::empty());
    }
    while i < n
        invariant
            i <= n,
            n == grids@.len(),
            views == grid_views(grids@),
            forall|k: int|
                0 <= k < grids@.len() && grid_matches((#[trigger] grids@[k])@, constraints@)
                    ==> all_letters(grids@[k]@),
            table@ == tally(matching_grids(views.take(i as int), constraints@)),
        decreases n - i,
    {
        let grid = &grids[i];
        let ghost kept = matching_grids(views.take(i as int), constraints@);
        proof {
            assert(views.take(i + 1) =~= views.take(i as int).push(grid@));
            views.take(i as int).lemma_filter_push(grid@, |g: Seq<u8>| grid_matches(g, constraints@));
        }
        if grid.matches(constraints) {
            proof {
                grid.lemma_view_len();
                lemma_tally_push(kept, grid@);
                lemma_tally_is_table(kept);
                views.take(i as int).lemma_filter_len(|g: Seq<u8>| grid_matches(g, constraints@));
                assert forall|p: int| 0 <= p < 9 implies #[trigger] table@[p][letter_index(
                    grid@[p],
                )] < usize::MAX by {
                    assert(is_letter(grid@[p]));
                    assert(tally(kept)[p][letter_index(grid@[p])] <= kept.len());
                }
            }
            table.increment(grid);
        }
        i += 1;
    }
    proof {
        assert(views.take(n as int) =~= views);
    }
    table
}

} // verus!
