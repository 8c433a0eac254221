//! The search: every triple of dictionary words as rows, kept when its columns are words too,
//! with whole row pairs skipped when a column prefix has no completion.

use vstd::prelude::*;
use crate::dictionary::HashedDictionary;
use crate::grid::{
    Grid, columns_in, grid_column, grid_of, grid_row, grid_views, lemma_letters_from_rows, rows_in,
};
use crate::prefix_index::{PrefixIndex, has_extension};
use crate::word::{Word, all_letters, all_lowercase};

verus! {

/// The first two letters of column `c` of any grid whose first rows are `r1` and `r2`.
pub open spec fn column_prefix(r1: Seq<u8>, r2: Seq<u8>, c: int) -> Seq<u8> {
    seq![r1[c], r2[c]]
}

/// Every column started by the rows `r1`, `r2` can still be completed to a word of `index`.
pub open spec fn pair_survives(index: Set<Seq<u8>>, r1: Seq<u8>, r2: Seq<u8>) -> bool {
    &&& has_extension(index, column_prefix(r1, r2, 0))
    &&& has_extension(index, column_prefix(r1, r2, 1))
    &&& has_extension(index, column_prefix(r1, r2, 2))
}

/// The valid grids with first rows `r1`, `r2` and third row taken from `thirds`, in the
/// order of `thirds`. A grid is valid when its columns are all among `words`.
pub open spec fn pair_grids(
    words: Seq<Seq<u8>>,
    r1: Seq<u8>,
    r2: Seq<u8>,
    thirds: Seq<Seq<u8>>,
) -> Seq<Seq<u8>> {
    thirds.map_values(|r3: Seq<u8>| grid_of(r1, r2, r3)).filter(
        |g: Seq<u8>| columns_in(g, words.to_set()),
    )
}

/// The valid grids with first row `r1`, second row taken from `seconds` and third row
/// from `words`, second row varying slowest.
pub open spec fn row_grids(words: Seq<Seq<u8>>, r1: Seq<u8>, seconds: Seq<Seq<u8>>) -> Seq<
    Seq<u8>,
> {
    seconds.map_values(|r2: Seq<u8>| pair_grids(words, r1, r2, words)).flatten()
}

/// As `row_grids`, but a second row contributes only if the pair survives pruning by `index`.
pub open spec fn pruned_row_grids(
    words: Seq<Seq<u8>>,
    index: Set<Seq<u8>>,
    r1: Seq<u8>,
    seconds: Seq<Seq<u8>>,
) -> Seq<Seq<u8>> {
    seconds.map_values(
        |r2: Seq<u8>|
            if pair_survives(index, r1, r2) {
                pair_grids(words, r1, r2, words)
            } else {
                Seq::<Seq<u8>>::empty()
            },
    ).flatten()
}

/// The valid grids with first row taken from `firsts` and the other rows from `words`,
/// first row varying slowest.
pub open spec fn all_grids(words: Seq<Seq<u8>>, firsts: Seq<Seq<u8>>) -> Seq<Seq<u8>> {
    firsts.map_values(|r1: Seq<u8>| row_grids(words, r1, words)).flatten()
}

/// As `all_grids`, with pruning by `index`.
pub open spec fn pruned_all_grids(
    words: Seq<Seq<u8>>,
    index: Set<Seq<u8>>,
    firsts: Seq<Seq<u8>>,
) -> Seq<Seq<u8>> {
    firsts.map_values(|r1: Seq<u8>| pruned_row_grids(words, index, r1, words)).flatten()
}

/// Every valid grid over `words`: all triples of words in enumeration order, first row
/// slowest, filtered by validity. This is what an unpruned triple loop finds.
pub open spec fn valid_grids(words: Seq<Seq<u8>>) -> Seq<Seq<u8>> {
    all_grids(words, words)
}

/// What the pruned search over `words` finds when it prunes by `index`.
pub open spec fn pruned_grids(words: Seq<Seq<u8>>, index: Set<Seq<u8>>) -> Seq<Seq<u8>> {
    pruned_all_grids(words, index, words)
}

/// One more candidate third row adds its grid exactly when the grid is valid.
pub proof fn lemma_pair_grids_push(
    words: Seq<Seq<u8>>,
    r1: Seq<u8>,
    r2: Seq<u8>,
    thirds: Seq<Seq<u8>>,
    r3: Seq<u8>,
)
    ensures
        pair_grids(words, r1, r2, thirds.push(r3)) == if columns_in(
            grid_of(r1, r2, r3),
            words.to_set(),
        ) {
            pair_grids(words, r1, r2, thirds).push(grid_of(r1, r2, r3))
        } else {
            pair_grids(words, r1, r2, thirds)
        },
        pair_grids(words, r1, r2, Seq::empty()) == Seq::<Seq<u8>>::empty(),
{
    let make = |r3: Seq<u8>| grid_of(r1, r2, r3);
    let valid = |g: Seq<u8>| columns_in(g, words.to_set());
    assert(thirds.push(r3).map_values(make) =~= thirds.map_values(make).push(make(r3)));
    thirds.map_values(make).lemma_filter_push(make(r3), valid);
    assert(Seq::<Seq<u8>>::empty().map_values(make) =~= Seq::<Seq<u8>>::empty());
    reveal(Seq::filter);
    assert(Seq::<Seq<u8>>::empty().filter(valid) =~= Seq::<Seq<u8>>::empty());
}

/// One more candidate second row appends the valid grids of its pair.
pub proof fn lemma_row_grids_push(
    words: Seq<Seq<u8>>,
    r1: Seq<u8>,
    seconds: Seq<Seq<u8>>,
    r2: Seq<u8>,
)
    ensures
        row_grids(words, r1, seconds.push(r2)) == row_grids(words, r1, seconds) + pair_grids(
            words,
            r1,
            r2,
            words,
        ),
        row_grids(words, r1, Seq::empty()) == Seq::<Seq<u8>>::empty(),
{
    let per = |r2: Seq<u8>| pair_grids(words, r1, r2, words);
    assert(seconds.push(r2).map_values(per) =~= seconds.map_values(per).push(per(r2)));
    seconds.map_values(per).lemma_flatten_push(per(r2));
    assert(Seq::<Seq<u8>>::empty().map_values(per) =~= Seq::<Seq<Seq<u8>>>::empty());
}

/// One more candidate second row appends the valid grids of its pair if the pair survives
/// pruning, and nothing otherwise.
pub proof fn lemma_pruned_row_grids_push(
    words: Seq<Seq<u8>>,
    index: Set<Seq<u8>>,
    r1: Seq<u8>,
    seconds: Seq<Seq<u8>>,
    r2: Seq<u8>,
)
    ensures
        pruned_row_grids(words, index, r1, seconds.push(r2)) == if pair_survives(index, r1, r2) {
            pruned_row_grids(words, index, r1, seconds) + pair_grids(words, r1, r2, words)
        } else {
            pruned_row_grids(words, index, r1, seconds)
        },
        pruned_row_grids(words, index, r1, Seq::empty()) == Seq::<Seq<u8>>::empty(),
{
    let per = |r2: Seq<u8>|
        if pair_survives(index, r1, r2) {
            pair_grids(words, r1, r2, words)
        } else {
            Seq::<Seq<u8>>::empty()
        };
    assert(seconds.push(r2).map_values(per) =~= seconds.map_values(per).push(per(r2)));
    seconds.map_values(per).lemma_flatten_push(per(r2));
    assert(seconds.map_values(per).flatten() + Seq::<Seq<u8>>::empty() =~= seconds.map_values(
        per,
    ).flatten());
    assert(Seq::<Seq<u8>>::empty().map_values(per) =~= Seq::<Seq<Seq<u8>>>::empty());
}

/// One more candidate first row appends the valid grids of that row.
pub proof fn lemma_all_grids_push(words: Seq<Seq<u8>>, firsts: Seq<Seq<u8>>, r1: Seq<u8>)
    ensures
        all_grids(words, firsts.push(r1)) == all_grids(words, firsts) + row_grids(
            words,
            r1,
            words,
        ),
        all_grids(words, Seq::empty()) == Seq::<Seq<u8>>::empty(),
{
    let per = |r1: Seq<u8>| row_grids(words, r1, words);
    assert(firsts.push(r1).map_values(per) =~= firsts.map_values(per).push(per(r1)));
    firsts.map_values(per).lemma_flatten_push(per(r1));
    assert(Seq::<Seq<u8>>::empty().map_values(per) =~= Seq::<Seq<Seq<u8>>>::empty());
}

/// One more candidate first row appends what the pruned search finds for that row.
pub proof fn lemma_pruned_all_grids_push(
    words: Seq<Seq<u8>>,
    index: Set<Seq<u8>>,
    firsts: Seq<Seq<u8>>,
    r1: Seq<u8>,
)
    ensures
        pruned_all_grids(words, index, firsts.push(r1)) == pruned_all_grids(words, index, firsts)
            + pruned_row_grids(words, index, r1, words),
        pruned_all_grids(words, index, Seq::empty()) == Seq::<Seq<u8>>::empty(),
{
    let per = |r1: Seq<u8>| pruned_row_grids(words, index, r1, words);
    assert(firsts.push(r1).map_values(per) =~= firsts.map_values(per).push(per(r1)));
    firsts.map_values(per).lemma_flatten_push(per(r1));
    assert(Seq::<Seq<u8>>::empty().map_values(per) =~= Seq::<Seq<Seq<u8>>>::empty());
}

/// An element of a flattened sequence lies in one of the inner sequences, and conversely.
pub proof fn lemma_flatten_members<A>(parts: Seq<Seq<A>>, x: A)
    ensures
        parts.flatten().contains(x) <==> exists|i: int|
            0 <= i < parts.len() && (#[trigger] parts[i]).contains(x),
    decreases parts.len(),
{
    if parts.len() == 0 {
        assert(parts.flatten() =~= Seq::<A>::empty());
    } else {
        let front = parts.drop_last();
        let back = parts.last();
        assert(parts =~= front.push(back));
        front.lemma_flatten_push(back);
        lemma_flatten_members(front, x);
        let whole = front.flatten() + back;
        if whole.contains(x) {
            let k = choose|k: int| 0 <= k < whole.len() && whole[k] == x;
            if k < front.flatten().len() {
                assert(front.flatten()[k] == x);
                let i = choose|i: int| 0 <= i < front.len() && (#[trigger] front[i]).contains(x);
                assert(parts[i] == front[i]);
            } else {
                assert(back[k - front.flatten().len()] == x);
                assert(parts[parts.len() - 1].contains(x));
            }
        }
        if exists|i: int| 0 <= i < parts.len() && (#[trigger] parts[i]).contains(x) {
            let i = choose|i: int| 0 <= i < parts.len() && (#[trigger] parts[i]).contains(x);
            if i < front.len() {
                assert(front[i] == parts[i]);
                let k = choose|k: int| 0 <= k < front.flatten().len() && front.flatten()[k] == x;
                assert(whole[k] == x);
            } else {
                let k = choose|k: int| 0 <= k < back.len() && back[k] == x;
                assert(whole[front.flatten().len() + k] == x);
            }
        }
    }
}

/// The grids of one pair of rows are exactly the valid ones among the candidates.
pub proof fn lemma_pair_grids_members(
    words: Seq<Seq<u8>>,
    r1: Seq<u8>,
    r2: Seq<u8>,
    thirds: Seq<Seq<u8>>,
    g: Seq<u8>,
)
    ensures
        pair_grids(words, r1, r2, thirds).contains(g) <==> (columns_in(g, words.to_set())
            && exists|k: int| 0 <= k < thirds.len() && g == grid_of(r1, r2, #[trigger] thirds[k])),
{
    let make = |r3: Seq<u8>| grid_of(r1, r2, r3);
    let valid = |g: Seq<u8>| columns_in(g, words.to_set());
    let made = thirds.map_values(make);
    let kept = made.filter(valid);
    if kept.contains(g) {
        let i = choose|i: int| 0 <= i < kept.len() && kept[i] == g;
        made.lemma_filter_pred(valid, i);
        made.lemma_filter_contains_rev(valid, g);
        let k = choose|k: int| 0 <= k < made.len() && made[k] == g;
        assert(g == grid_of(r1, r2, thirds[k]));
    }
    if columns_in(g, words.to_set()) && exists|k: int|
        0 <= k < thirds.len() && g == grid_of(r1, r2, #[trigger] thirds[k]) {
        let k = choose|k: int| 0 <= k < thirds.len() && g == grid_of(r1, r2, #[trigger] thirds[k]);
        assert(made[k] == g);
        made.lemma_filter_contains(valid, k);
    }
}

/// A pair of rows that pruning skips has no valid grid, as long as the index holds every
/// word of the dictionary.
pub proof fn lemma_skipped_pair_has_no_grid(
    words: Seq<Seq<u8>>,
    index: Set<Seq<u8>>,
    r1: Seq<u8>,
    r2: Seq<u8>,
)
    requires
        r1.len() == 3,
        r2.len() == 3,
        words.to_set().subset_of(index),
        !pair_survives(index, r1, r2),
    ensures
        pair_grids(words, r1, r2, words) == Seq::<Seq<u8>>::empty(),
{
    let found = pair_grids(words, r1, r2, words);
    if found.len() > 0 {
        let g = found[0];
        assert(found.contains(g));
        lemma_pair_grids_members(words, r1, r2, words, g);
        let k = choose|k: int| 0 <= k < words.len() && g == grid_of(r1, r2, #[trigger] words[k]);
        assert forall|c: int| 0 <= c < 3 implies has_extension(
            index,
            #[trigger] column_prefix(r1, r2, c),
        ) by {
            let column = grid_column(g, c);
            assert(words.to_set().contains(column));
            assert(index.contains(column));
            assert(column.subrange(0, 2) =~= column_prefix(r1, r2, c));
            assert(column_prefix(r1, r2, c).is_prefix_of(column));
        }
        assert(has_extension(index, column_prefix(r1, r2, 0)));
        assert(has_extension(index, column_prefix(r1, r2, 1)));
        assert(has_extension(index, column_prefix(r1, r2, 2)));
    }
    assert(found =~= Seq::<Seq<u8>>::empty());
}

/// For one first row, pruning changes nothing when the index holds every word.
pub proof fn lemma_pruned_row_is_exact(
    words: Seq<Seq<u8>>,
    index: Set<Seq<u8>>,
    r1: Seq<u8>,
    seconds: Seq<Seq<u8>>,
)
    requires
        r1.len() == 3,
        forall|i: int| 0 <= i < seconds.len() ==> (#[trigger] seconds[i]).len() == 3,
        words.to_set().subset_of(index),
    ensures
        pruned_row_grids(words, index, r1, seconds) == row_grids(words, r1, seconds),
    decreases seconds.len(),
{
    if seconds.len() == 0 {
        assert(seconds =~= Seq::<Seq<u8>>::empty());
        lemma_row_grids_push(words, r1, seconds, r1);
        lemma_pruned_row_grids_push(words, index, r1, seconds, r1);
    } else {
        let front = seconds.drop_last();
        let r2 = seconds.last();
        assert(seconds =~= front.push(r2));
        lemma_pruned_row_is_exact(words, index, r1, front);
        lemma_row_grids_push(words, r1, front, r2);
        lemma_pruned_row_grids_push(words, index, r1, front, r2);
        if !pair_survives(index, r1, r2) {
            lemma_skipped_pair_has_no_grid(words, index, r1, r2);
            assert(row_grids(words, r1, front) + Seq::<Seq<u8>>::empty() =~= row_grids(
                words,
                r1,
                front,
            ));
        }
    }
}

/// For any choice of first rows, pruning changes nothing when the index holds every word.
pub proof fn lemma_pruned_all_is_exact(
    words: Seq<Seq<u8>>,
    index: Set<Seq<u8>>,
    firsts: Seq<Seq<u8>>,
)
    requires
        forall|i: int| 0 <= i < words.len() ==> (#[trigger] words[i]).len() == 3,
        forall|i: int| 0 <= i < firsts.len() ==> (#[trigger] firsts[i]).len() == 3,
        words.to_set().subset_of(index),
    ensures
        pruned_all_grids(words, index, firsts) == all_grids(words, firsts),
    decreases firsts.len(),
{
    if firsts.len() == 0 {
        assert(firsts =~= Seq::<Seq<u8>>::empty());
        lemma_all_grids_push(words, firsts, firsts.to_set().choose());
        lemma_pruned_all_grids_push(words, index, firsts, firsts.to_set().choose());
    } else {
        let front = firsts.drop_last();
        let r1 = firsts.last();
        assert(firsts =~= front.push(r1));
        lemma_pruned_all_is_exact(words, index, front);
        lemma_all_grids_push(words, front, r1);
        lemma_pruned_all_grids_push(words, index, front, r1);
        lemma_pruned_row_is_exact(words, index, r1, words);
    }
}

/// Pruning is an optimisation only: when the index holds every word of the dictionary,
/// the pruned search finds the same grids, in the same order, as the unpruned triple loop.
pub proof fn lemma_pruning_is_exact(words: Seq<Seq<u8>>, index: Set<Seq<u8>>)
    requires
        forall|i: int| 0 <= i < words.len() ==> (#[trigger] words[i]).len() == 3,
        words.to_set().subset_of(index),
    ensures
        pruned_grids(words, index) == valid_grids(words),
{
    lemma_pruned_all_is_exact(words, index, words);
}

/// The valid grids are exactly the grids whose three rows are words and whose three
/// columns are words.
pub proof fn lemma_valid_grids_members(words: Seq<Seq<u8>>, g: Seq<u8>)
    ensures
        valid_grids(words).contains(g) <==> (columns_in(g, words.to_set()) && exists|
            i: int,
            j: int,
            k: int,
        |
            #![trigger words[i], words[j], words[k]]
            0 <= i < words.len() && 0 <= j < words.len() && 0 <= k < words.len() && g == grid_of(
                words[i],
                words[j],
                words[k],
            )),
{
    let per_first = |r1: Seq<u8>| row_grids(words, r1, words);
    let by_first = words.map_values(per_first);
    lemma_flatten_members(by_first, g);
    if valid_grids(words).contains(g) {
        let i = choose|i: int| 0 <= i < by_first.len() && (#[trigger] by_first[i]).contains(g);
        let per_second = |r2: Seq<u8>| pair_grids(words, words[i], r2, words);
        let by_second = words.map_values(per_second);
        assert(by_first[i] == by_second.flatten());
        lemma_flatten_members(by_second, g);
        let j = choose|j: int| 0 <= j < by_second.len() && (#[trigger] by_second[j]).contains(g);
        lemma_pair_grids_members(words, words[i], words[j], words, g);
        let k = choose|k: int|
            0 <= k < words.len() && g == grid_of(words[i], words[j], #[trigger] words[k]);
        assert(g == grid_of(words[i], words[j], words[k]));
    }
    if columns_in(g, words.to_set()) && exists|i: int, j: int, k: int|
        #![trigger words[i], words[j], words[k]]
        0 <= i < words.len() && 0 <= j < words.len() && 0 <= k < words.len() && g == grid_of(
            words[i],
            words[j],
            words[k],
        ) {
        let (i, j, k) = choose|i: int, j: int, k: int|
            #![trigger words[i], words[j], words[k]]
            0 <= i < words.len() && 0 <= j < words.len() && 0 <= k < words.len() && g == grid_of(
                words[i],
                words[j],
                words[k],
            );
        let per_second = |r2: Seq<u8>| pair_grids(words, words[i], r2, words);
        let by_second = words.map_values(per_second);
        lemma_pair_grids_members(words, words[i], words[j], words, g);
        assert(by_second[j].contains(g));
        lemma_flatten_members(by_second, g);
        assert(by_first[i] == by_second.flatten());
        assert(by_first[i].contains(g));
    }
}

/// Room reserved in the buffer of one first row before its search starts.
pub const ROW_BUFFER_CAPACITY: usize = 10_000;

/// `g` has the first rows `r1`, `r2`; its third row is a word, and so are its columns.
pub open spec fn completes_pair(g: Seq<u8>, r1: Seq<u8>, r2: Seq<u8>, words: Set<Seq<u8>>) -> bool {
    &&& grid_row(g, 0) == r1
    &&& grid_row(g, 1) == r2
    &&& words.contains(grid_row(g, 2))
    &&& columns_in(g, words)
}

/// `g` has the first row `r1`; its other rows are words, and so are its columns.
pub open spec fn completes_row(g: Seq<u8>, r1: Seq<u8>, words: Set<Seq<u8>>) -> bool {
    &&& grid_row(g, 0) == r1
    &&& words.contains(grid_row(g, 1))
    &&& words.contains(grid_row(g, 2))
    &&& columns_in(g, words)
}

/// A grid whose rows are words of a list of lowercase words is made of lowercase letters.
pub proof fn lemma_grid_over_lowercase_words(g: Seq<u8>, words: Seq<Seq<u8>>)
    requires
        g.len() == 9,
        rows_in(g, words.to_set()),
        all_lowercase(words),
    ensures
        all_letters(g),
{
    assert forall|r: int| 0 <= r < 3 implies all_letters(#[trigger] grid_row(g, r)) by {
        assert(words.contains(grid_row(g, r)));
        let i = choose|i: int| 0 <= i < words.len() && words[i] == grid_row(g, r);
        assert(all_letters(words[i]));
    }
    assert(all_letters(grid_row(g, 0)));
    assert(all_letters(grid_row(g, 1)));
    assert(all_letters(grid_row(g, 2)));
    lemma_letters_from_rows(g);
}

/// The pruning rule: tests whether each of the three columns started by `row1` and `row2`
/// is the beginning of some indexed word.
pub fn survives_pruning(index: &PrefixIndex, row1: &Word, row2: &Word) -> (survives: bool)
    ensures
        survives == pair_survives(index@, row1@, row2@),
{
    let ps1: [u8; 2] = [row1[0], row2[0]];
    let ps2: [u8; 2] = [row1[1], row2[1]];
    let ps3: [u8; 2] = [row1[2], row2[2]];
    assert(ps1@ =~= column_prefix(row1@, row2@, 0));
    assert(ps2@ =~= column_prefix(row1@, row2@, 1));
    assert(ps3@ =~= column_prefix(row1@, row2@, 2));
    if !index.has_prefix(ps1.as_slice()) {
        return false;
    }
    if !index.has_prefix(ps2.as_slice()) {
        return false;
    }
    index.has_prefix(ps3.as_slice())
}

/// Tries every dictionary word as third row under `row1` and `row2`, and appends the
/// valid grids to `grids` in dictionary order.
pub fn append_pair_grids(
    dict: &HashedDictionary,
    row1: &Word,
    row2: &Word,
    grids: &mut Vec<Grid>,
)
    ensures
        grid_views(final(grids)@) == grid_views(old(grids)@) + pair_grids(
            dict@,
            row1@,
            row2@,
            dict@,
        ),
        final(grids)@.len() >= old(grids)@.len(),
        forall|i: int| 0 <= i < old(grids)@.len() ==> final(grids)@[i] == old(grids)@[i],
        forall|i: int|
            old(grids)@.len() <= i < final(grids)@.len() ==> completes_pair(
                (#[trigger] final(grids)@[i])@,
                row1@,
                row2@,
                dict.word_set(),
            ),
{
    let ghost before = grids@;
    let n = dict.len();
    let mut k: usize = 0;
    proof {
        lemma_pair_grids_push(dict@, row1@, row2@, dict@.take(0), row1@);
        assert(dict@.take(0) =~= Seq::<Seq<u8>>::empty());
        assert(grid_views(before) + Seq::<Seq<u8>>::empty() =~= grid_views(before));
    }
    while k < n
        invariant
            k <= n,
            n == dict@.len(),
            grid_views(grids@) == grid_views(before) + pair_grids(
                dict@,
                row1@,
                row2@,
                dict@.take(k as int),
            ),
            grids@.len() >= before.len(),
            forall|i: int| 0 <= i < before.len() ==> grids@[i] == before[i],
            forall|i: int|
                before.len() <= i < grids@.len() ==> completes_pair(
                    (#[trigger] grids@[i])@,
                    row1@,
                    row2@,
                    dict.word_set(),
                ),
        decreases n - k,
    {
        let row3 = dict.word(k);
        let grid = Grid::from_strs(row1.as_slice(), row2.as_slice(), row3.as_slice());
        let ghost so_far = grids@;
        let ghost found = pair_grids(dict@, row1@, row2@, dict@.take(k as int));
        proof {
            assert(dict@.take(k + 1) =~= dict@.take(k as int).push(row3@));
            lemma_pair_grids_push(dict@, row1@, row2@, dict@.take(k as int), row3@);
        }
        if grid.is_valid(dict) {
            grids.push(grid);
            proof {
                assert(grid_views(grids@) =~= grid_views(so_far).push(grid@));
                assert((grid_views(before) + found).push(grid@) =~= grid_views(before)
                    + found.push(grid@));
                assert(dict@.contains(dict@[k as int]));
            }
        }
        k += 1;
    }
    proof {
        assert(dict@.take(n as int) =~= dict@);
    }
}

/// The unit of work of the search: every valid grid whose first row is `row1`, second
/// row slowest, with the pairs that pruning rules out skipped.
pub fn grids_for_row(dict: &HashedDictionary, index: &PrefixIndex, row1: &Word) -> (grids: Vec<
    Grid,
>)
    ensures
        grid_views(grids@) == pruned_row_grids(dict@, index@, row1@, dict@),
        dict.word_set().subset_of(index@) ==> grid_views(grids@) == row_grids(
            dict@,
            row1@,
            dict@,
        ),
        forall|i: int|
            0 <= i < grids@.len() ==> completes_row(
                (#[trigger] grids@[i])@,
                row1@,
                dict.word_set(),
            ),
{
    let mut grids: Vec<Grid> = Vec::with_capacity(ROW_BUFFER_CAPACITY);
    let n = dict.len();
    let mut j: usize = 0;
    proof {
        lemma_pruned_row_grids_push(dict@, index@, row1@, dict@.take(0), row1@);
        assert(dict@.take(0) =~= Seq::<Seq<u8>>::empty());
        assert(grid_views(grids@) =~= Seq::<Seq<u8>>::empty());
    }
    while j < n
        invariant
            j <= n,
            n == dict@.len(),
            grid_views(grids@) == pruned_row_grids(dict@, index@, row1@, dict@.take(j as int)),
            forall|i: int|
                0 <= i < grids@.len() ==> completes_row(
                    (#[trigger] grids@[i])@,
                    row1@,
                    dict.word_set(),
                ),
        decreases n - j,
    {
        let row2 = dict.word(j);
        proof {
            assert(dict@.take(j + 1) =~= dict@.take(j as int).push(row2@));
            lemma_pruned_row_grids_push(dict@, index@, row1@, dict@.take(j as int), row2@);
            assert(dict@.contains(dict@[j as int]));
        }
        if survives_pruning(index, row1, &row2) {
            let ghost so_far = grids@;
            append_pair_grids(dict, row1, &row2, &mut grids);
            assert forall|i: int| 0 <= i < grids@.len() implies completes_row(
                (#[trigger] grids@[i])@,
                row1@,
                dict.word_set(),
            ) by {
                if i < so_far.len() {
                    assert(grids@[i] == so_far[i]);
                } else {
                    assert(completes_pair(grids@[i]@, row1@, row2@, dict.word_set()));
                }
            }
        }
        j += 1;
    }
    proof {
        assert(dict@.take(n as int) =~= dict@);
        if dict.word_set().subset_of(index@) {
            dict.lemma_words_are_three_bytes();
            lemma_pruned_row_is_exact(dict@, index@, row1@, dict@);
        }
    }
    grids
}

/// Finds every grid whose three rows and three columns are all words of `dict`, skipping
/// row pairs that `index` rules out. Grids come first row slowest, third row fastest, each
/// in dictionary order.
pub fn enumerate_grids(dict: &HashedDictionary, index: &PrefixIndex) -> (grids: Vec<Grid>)
    ensures
        grid_views(grids@) == pruned_grids(dict@, index@),
        dict.word_set().subset_of(index@) ==> grid_views(grids@) == valid_grids(dict@),
        forall|i: int|
            0 <= i < grids@.len() ==> rows_in((#[trigger] grids@[i])@, dict.word_set())
                && columns_in(grids@[i]@, dict.word_set()),
        all_lowercase(dict@) ==> forall|i: int|
            0 <= i < grids@.len() ==> all_letters((#[trigger] grids@[i])@),
{
    let mut grids: Vec<Grid> = Vec::new();
    let n = dict.len();
    let mut i: usize = 0;
    proof {
        lemma_pruned_all_grids_push(dict@, index@, dict@.take(0), dict@.take(0).to_set().choose());
        assert(dict@.take(0) =~= Seq::<Seq<u8>>::empty());
        assert(grid_views(grids@) =~= Seq::<Seq<u8>>::empty());
    }
    while i < n
        invariant
            i <= n,
            n == dict@.len(),
            grid_views(grids@) == pruned_all_grids(dict@, index@, dict@.take(i as int)),
            forall|k: int|
                0 <= k < grids@.len() ==> rows_in((#[trigger] grids@[k])@, dict.word_set())
                    && columns_in(grids@[k]@, dict.word_set()),
        decreases n - i,
    {
        let row1 = dict.word(i);
        let mut found = grids_for_row(dict, index, &row1);
        let ghost so_far = grids@;
        let ghost added = found@;
        grids.append(&mut found);
        proof {
            assert(dict@.take(i + 1) =~= dict@.take(i as int).push(row1@));
            lemma_pruned_all_grids_push(dict@, index@, dict@.take(i as int), row1@);
            assert(grid_views(grids@) =~= grid_views(so_far) + grid_views(added));
            assert(dict@.contains(dict@[i as int]));
            assert forall|k: int| 0 <= k < grids@.len() implies rows_in(
                (#[trigger] grids@[k])@,
                dict.word_set(),
            ) && columns_in(grids@[k]@, dict.word_set()) by {
                if k >= so_far.len() {
                    assert(grids@[k] == added[k - so_far.len()]);
                    assert(completes_row(added[k - so_far.len()]@, row1@, dict.word_set()));
                } else {
                    assert(grids@[k] == so_far[k]);
                }
            }
        }
        i += 1;
    }
    proof {
        assert(dict@.take(n as int) =~= dict@);
        if dict.word_set().subset_of(index@) {
            dict.lemma_words_are_three_bytes();
            lemma_pruning_is_exact(dict@, index@);
        }
        if all_lowercase(dict@) {
            assert forall|k: int| 0 <= k < grids@.len() implies all_letters(
                (#[trigger] grids@[k])@,
            ) by {
                grids@[k].lemma_view_len();
                lemma_grid_over_lowercase_words(grids@[k]@, dict@);
            }
        }
    }
    grids
}

/// The search without pruning: the plain triple loop over the dictionary.
pub fn enumerate_grids_unpruned(dict: &HashedDictionary) -> (grids: Vec<Grid>)
    ensures
        grid_views(grids@) == valid_grids(dict@),
        forall|i: int|
            0 <= i < grids@.len() ==> rows_in((#[trigger] grids@[i])@, dict.word_set())
                && columns_in(grids@[i]@, dict.word_set()),
        all_lowercase(dict@) ==> forall|i: int|
            0 <= i < grids@.len() ==> all_letters((#[trigger] grids@[i])@),
{
    let mut grids: Vec<Grid> = Vec::new();
    let n = dict.len();
    let mut i: usize = 0;
    proof {
        lemma_all_grids_push(dict@, dict@.take(0), dict@.take(0).to_set().choose());
        assert(dict@.take(0) =~= Seq::<Seq<u8>>::empty());
        assert(grid_views(grids@) =~= Seq::<Seq<u8>>::empty());
    }
    while i < n
        invariant
            i <= n,
            n == dict@.len(),
            grid_views(grids@) == all_grids(dict@, dict@.take(i as int)),
            forall|k: int|
                0 <= k < grids@.len() ==> rows_in((#[trigger] grids@[k])@, dict.word_set())
                    && columns_in(grids@[k]@, dict.word_set()),
        decreases n - i,
    {
        let row1 = dict.word(i);
        let ghost row_start = grids@;
        let mut j: usize = 0;
        proof {
            lemma_row_grids_push(dict@, row1@, dict@.take(0), row1@);
            assert(dict@.take(0) =~= Seq::<Seq<u8>>::empty());
            assert(grid_views(grids@) + Seq::<Seq<u8>>::empty() =~= grid_views(grids@));
            assert(dict@.contains(dict@[i as int]));
        }
        while j < n
            invariant
                j <= n,
                i < n,
                n == dict@.len(),
                row1@ == dict@[i as int],
                dict.word_set().contains(row1@),
                grid_views(row_start) == all_grids(dict@, dict@.take(i as int)),
                grid_views(grids@) == grid_views(row_start) + row_grids(
                    dict@,
                    row1@,
                    dict@.take(j as int),
                ),
                forall|k: int|
                    0 <= k < grids@.len() ==> rows_in((#[trigger] grids@[k])@, dict.word_set())
                        && columns_in(grids@[k]@, dict.word_set()),
            decreases n - j,
        {
            let row2 = dict.word(j);
            let ghost pair_start = grids@;
            let ghost done = row_grids(dict@, row1@, dict@.take(j as int));
            proof {
                assert(dict@.take(j + 1) =~= dict@.take(j as int).push(row2@));
                lemma_row_grids_push(dict@, row1@, dict@.take(j as int), row2@);
                assert(dict@.contains(dict@[j as int]));
            }
            append_pair_grids(dict, &row1, &row2, &mut grids);
            proof {
                assert forall|k: int| 0 <= k < grids@.len() implies rows_in(
                    (#[trigger] grids@[k])@,
                    dict.word_set(),
                ) && columns_in(grids@[k]@, dict.word_set()) by {
                    if k < pair_start.len() {
                        assert(grids@[k] == pair_start[k]);
                    } else {
                        assert(completes_pair(grids@[k]@, row1@, row2@, dict.word_set()));
                    }
                }
                let new = pair_grids(dict@, row1@, row2@, dict@);
                assert((grid_views(row_start) + done) + new =~= grid_views(row_start) + (done
                    + new));
            }
            j += 1;
        }
        proof {
            assert(dict@.take(n as int) =~= dict@);
            assert(dict@.take(i + 1) =~= dict@.take(i as int).push(row1@));
            lemma_all_grids_push(dict@, dict@.take(i as int), row1@);
        }
        i += 1;
    }
    proof {
        assert(dict@.take(n as int) =~= dict@);
        if all_lowercase(dict@) {
            assert forall|k: int| 0 <= k < grids@.len() implies all_letters(
                (#[trigger] grids@[k])@,
            ) by {
                grids@[k].lemma_view_len();
                lemma_grid_over_lowercase_words(grids@[k]@, dict@);
            }
        }
    }
    grids
}

} // verus!
