//! The word list as loaded, and the deduplicated set of three-letter words built from it.

use vstd::prelude::*;
use vstd::std_specs::hash::spec_hash_keys_iter;
use vstd::std_specs::iter::IteratorSpec;
use vstd::utf8::encode_utf8;
use std::collections::HashSet;
use crate::text::push_char;
use crate::word::{
    Word, all_letters, all_lowercase, is_lowercase_word, lemma_code_word_round_trip,
    lemma_word_code_injective, lemma_word_code_round_trip, pack_word, unpack_word, word_code,
};

verus! {

/// The bytes of each entry of a word list, in order.
pub open spec fn entry_bytes(entries: Seq<Seq<char>>) -> Seq<Seq<u8>> {
    entries.map_values(|e: Seq<char>| encode_utf8(e))
}

/// The three-byte entries among the first `n` of `entries`, each once, in order of first
/// appearance.
pub open spec fn distinct_words(entries: Seq<Seq<u8>>, n: nat) -> Seq<Seq<u8>>
    decreases n,
{
    if n == 0 {
        Seq::empty()
    } else {
        let earlier = distinct_words(entries, (n - 1) as nat);
        let entry = entries[n - 1];
        if entry.len() == 3 && !earlier.contains(entry) {
            earlier.push(entry)
        } else {
            earlier
        }
    }
}

/// `distinct_words` keeps exactly the three-byte entries, and keeps none of them twice.
pub proof fn lemma_distinct_words(entries: Seq<Seq<u8>>, n: nat)
    requires
        n <= entries.len(),
    ensures
        distinct_words(entries, n).no_duplicates(),
        forall|w: Seq<u8>| #[trigger]
            distinct_words(entries, n).contains(w) <==> (w.len() == 3 && exists|i: int|
                0 <= i < n && entries[i] == w),
    decreases n,
{
    if n > 0 {
        let earlier = distinct_words(entries, (n - 1) as nat);
        let entry = entries[n - 1];
        let now = distinct_words(entries, n);
        lemma_distinct_words(entries, (n - 1) as nat);
        assert forall|w: Seq<u8>| #[trigger]
            now.contains(w) <==> (w.len() == 3 && exists|i: int| 0 <= i < n && entries[i] == w) by {
            if entry.len() == 3 && !earlier.contains(entry) {
                if now.contains(w) {
                    let j = choose|j: int| 0 <= j < now.len() && now[j] == w;
                    if j < earlier.len() {
                        assert(earlier[j] == w);
                        assert(earlier.contains(w));
                    } else {
                        assert(entries[n - 1] == w);
                    }
                }
                if w.len() == 3 && exists|i: int| 0 <= i < n && entries[i] == w {
                    let i = choose|i: int| 0 <= i < n && entries[i] == w;
                    if i == n - 1 {
                        assert(now[earlier.len() as int] == w);
                    } else {
                        assert(earlier.contains(w));
                        let j = choose|j: int| 0 <= j < earlier.len() && earlier[j] == w;
                        assert(now[j] == w);
                    }
                }
            } else {
                if w.len() == 3 && exists|i: int| 0 <= i < n && entries[i] == w {
                    let i = choose|i: int| 0 <= i < n && entries[i] == w;
                    if i == n - 1 {
                        assert(earlier.contains(w));
                    }
                }
            }
        }
    }
}

/// The byte sequences of a list of words, in order.
pub open spec fn word_views(words: Seq<Word>) -> Seq<Seq<u8>> {
    words.map_values(|w: Word| w@)
}

/// The lines of a text: the pieces between its line feeds. A text without line feed is one
/// line, and a text that ends in a line feed ends in an empty line.
pub open spec fn split_lines(text: Seq<char>) -> Seq<Seq<char>>
    decreases text.len(),
{
    if text.len() == 0 {
        seq![Seq::<char>::empty()]
    } else {
        let before = split_lines(text.drop_last());
        if text.last() == '\n' {
            before.push(Seq::<char>::empty())
        } else {
            before.drop_last().push(before.last().push(text.last()))
        }
    }
}

/// Lines put together again, with a line feed between each two.
pub open spec fn join_lines(lines: Seq<Seq<char>>) -> Seq<char>
    decreases lines.len(),
{
    if lines.len() == 0 {
        Seq::empty()
    } else if lines.len() == 1 {
        lines[0]
    } else {
        join_lines(lines.drop_last()) + seq!['\n'] + lines.last()
    }
}

/// Splitting loses nothing and splits everywhere: the lines joined give the text back,
/// and no line holds a line feed.
pub proof fn lemma_split_lines(text: Seq<char>)
    ensures
        split_lines(text).len() >= 1,
        join_lines(split_lines(text)) == text,
        forall|i: int, j: int|
            0 <= i < split_lines(text).len() && 0 <= j < split_lines(text)[i].len()
                ==> #[trigger] split_lines(text)[i][j] != '\n',
    decreases text.len(),
{
    let lines = split_lines(text);
    if text.len() == 0 {
        assert(join_lines(lines) =~= text);
    } else {
        let before = split_lines(text.drop_last());
        lemma_split_lines(text.drop_last());
        assert(text =~= text.drop_last().push(text.last()));
        if text.last() == '\n' {
            assert(lines.drop_last() =~= before);
            assert(join_lines(lines) =~= text);
        } else {
            let grown = before.last().push(text.last());
            if before.len() == 1 {
                assert(join_lines(before) == before[0]);
                assert(join_lines(lines) =~= text);
            } else {
                assert(lines.drop_last() =~= before.drop_last());
                assert(join_lines(lines) =~= join_lines(before.drop_last()) + seq!['\n'] + grown);
                assert(join_lines(lines) =~= text);
            }
        }
    }
}

/// The characters of each of a list of strings, in order.
pub open spec fn entry_views(entries: Seq<String>) -> Seq<Seq<char>> {
    entries.map_values(|s: String| s@)
}

/// The word list as it was loaded: entries of any length, possibly repeated.
pub struct Dictionary(Vec<String>);

impl View for Dictionary {
    type V = Seq<Seq<char>>;

    /// The entries, in order, each as its characters.
    closed spec fn view(&self) -> Seq<Seq<char>> {
        entry_views(self.0@)
    }
}

impl Dictionary {
    /// Wraps a list of entries.
    pub fn new(entries: Vec<String>) -> (dict: Dictionary)
        ensures
            dict@ == entry_views(entries@),
    {
        Dictionary(entries)
    }

    /// Reads a word list from a text with one entry on each line.
    pub fn from_text(text: &str) -> (dict: Dictionary)
        ensures
            dict@ == split_lines(text@),
    {
        let mut lines: Vec<String> = Vec::new();
        let mut current = String::new();
        proof {
            assert(text@.take(0) =~= Seq::<char>::empty());
            assert(entry_views(lines@).push(current@) =~= split_lines(text@.take(0)));
        }
        for c in it: text.chars()
            invariant
                it.seq() == text@,
                entry_views(lines@).push(current@) == split_lines(text@.take(it.index())),
        {
            let ghost before = split_lines(text@.take(it.index()));
            proof {
                let longer = text@.take(it.index() + 1);
                assert(longer.drop_last() =~= text@.take(it.index()));
                assert(longer.last() == c);
                assert(before.last() == current@);
                assert(before.drop_last() =~= entry_views(lines@));
            }
            if c == '\n' {
                lines.push(current);
                current = String::new();
                proof {
                    assert(entry_views(lines@).push(current@) =~= before.push(Seq::<char>::empty()));
                }
            } else {
                push_char(&mut current, c);
                proof {
                    assert(entry_views(lines@).push(current@) =~= before.drop_last().push(
                        before.last().push(c),
                    ));
                }
            }
        }
        proof {
            assert(text@.take(text@.len() as int) =~= text@);
        }
        let ghost all = entry_views(lines@).push(current@);
        lines.push(current);
        assert(entry_views(lines@) =~= all);
        Dictionary(lines)
    }

    /// Adds the entries of `other` after the entries of this list.
    pub fn append(&mut self, other: Dictionary)
        ensures
            final(self)@ == old(self)@ + other@,
    {
        let mut more = other.0;
        let ghost added = more@;
        self.0.append(&mut more);
        assert(entry_views(self.0@) =~= entry_views(old(self).0@) + entry_views(added));
    }

    /// Number of entries.
    pub fn len(&self) -> (n: usize)
        ensures
            n == self@.len(),
    {
        self.0.len()
    }

    /// The entry at `i`, if there is one.
    pub fn get(&self, i: usize) -> (entry: Option<&String>)
        ensures
            i < self@.len() ==> entry is Some && entry->0@ == self@[i as int],
            i >= self@.len() ==> entry is None,
    {
        if i < self.0.len() {
            Some(&self.0[i])
        } else {
            None
        }
    }
}

/// The deduplicated three-letter words of a dictionary, with constant-time membership.
/// Words are kept in the order in which they were first added; that order is the
/// enumeration order of every search over the dictionary.
pub struct HashedDictionary {
    words: Vec<Word>,
    codes: HashSet<u32>,
}

impl View for HashedDictionary {
    type V = Seq<Seq<u8>>;

    /// The words in enumeration order.
    closed spec fn view(&self) -> Seq<Seq<u8>> {
        word_views(self.words@)
    }
}

impl HashedDictionary {
    #[verifier::type_invariant]
    spec fn well_formed(self) -> bool {
        &&& self@.no_duplicates()
        &&& forall|w: Seq<u8>|
            w.len() == 3 ==> (self.codes@.contains(word_code(w) as u32) <==> #[trigger] self@.contains(
                w,
            ))
    }

    /// The words as a set.
    pub open spec fn word_set(&self) -> Set<Seq<u8>> {
        self@.to_set()
    }

    /// Builds the dictionary from a list of entries: entries that are not exactly three
    /// bytes long are dropped, and of equal entries only the first is kept.
    pub fn build(list: &Dictionary) -> (dict: HashedDictionary)
        ensures
            dict@ == distinct_words(entry_bytes(list@), list@.len()),
            dict@.no_duplicates(),
            forall|i: int| 0 <= i < dict@.len() ==> (#[trigger] dict@[i]).len() == 3,
            forall|w: Seq<u8>| #[trigger]
                dict@.contains(w) <==> (w.len() == 3 && exists|i: int|
                    0 <= i < list@.len() && encode_utf8(list@[i]) == w),
    {
        let ghost entries = entry_bytes(list@);
        let mut words: Vec<Word> = Vec::new();
        let mut codes: HashSet<u32> = HashSet::new();
        let n = list.0.len();
        let mut i: usize = 0;
        while i < n
            invariant
                i <= n,
                n == list.0@.len(),
                n == list@.len(),
                entries == entry_bytes(list@),
                word_views(words@) == distinct_words(entries, i as nat),
                forall|w: Seq<u8>|
                    w.len() == 3 ==> (codes@.contains(word_code(w) as u32)
                        <==> #[trigger] distinct_words(entries, i as nat).contains(w)),
            decreases n - i,
        {
            let bytes = list.0[i].as_str().as_bytes();
            assert(bytes@ == entries[i as int]);
            if bytes.len() == 3 {
                let word: Word = [bytes[0], bytes[1], bytes[2]];
                assert(word@ =~= bytes@);
                let code = pack_word(&word);
                let ghost earlier = distinct_words(entries, i as nat);
                if !codes.contains(&code) {
                    codes.insert(code);
                    words.push(word);
                    proof {
                        assert(word_views(words@) =~= earlier.push(word@));
                        assert forall|w: Seq<u8>| w.len() == 3 implies (codes@.contains(
                            word_code(w) as u32,
                        ) <==> #[trigger] earlier.push(word@).contains(w)) by {
                            lemma_word_code_round_trip(w);
                            if word_code(w) == word_code(word@) {
                                lemma_word_code_injective(w, word@);
                                assert(earlier.push(word@)[earlier.len() as int] == w);
                            } else if earlier.contains(w) {
                                let j = choose|j: int| 0 <= j < earlier.len() && earlier[j] == w;
                                assert(earlier.push(word@)[j] == w);
                            } else if earlier.push(word@).contains(w) {
                                let j = choose|j: int|
                                    0 <= j < earlier.push(word@).len() && earlier.push(word@)[j]
                                        == w;
                                assert(earlier[j] == w);
                            }
                        }
                    }
                }
            }
            i += 1;
        }
        proof {
            lemma_distinct_words(entries, n as nat);
            let built = distinct_words(entries, n as nat);
            assert forall|k: int| 0 <= k < built.len() implies (#[trigger] built[k]).len() == 3 by {
                assert(built.contains(built[k]));
            }
            assert forall|w: Seq<u8>| #[trigger]
                built.contains(w) <==> (w.len() == 3 && exists|i: int|
                    0 <= i < list@.len() && encode_utf8(list@[i]) == w) by {
                if built.contains(w) {
                    let k = choose|k: int| 0 <= k < n && entries[k] == w;
                    assert(encode_utf8(list@[k]) == w);
                }
                if w.len() == 3 && exists|i: int|
                    0 <= i < list@.len() && encode_utf8(list@[i]) == w {
                    let k = choose|k: int| 0 <= k < list@.len() && encode_utf8(list@[k]) == w;
                    assert(entries[k] == w);
                }
            }
        }
        HashedDictionary { words, codes }
    }

    /// Builds the dictionary from a set of word codes (see `pack_word`). Codes that belong
    /// to no word are ignored. The enumeration order is the order in which the set hands
    /// its codes out.
    pub fn from_set(set: HashSet<u32>) -> (dict: HashedDictionary)
        ensures
            dict@.no_duplicates(),
            forall|i: int| 0 <= i < dict@.len() ==> (#[trigger] dict@[i]).len() == 3,
            forall|w: Seq<u8>|
                w.len() == 3 ==> (#[trigger] dict@.contains(w) <==> set@.contains(
                    word_code(w) as u32,
                )),
            dict@.len() <= set@.len(),
    {
        let mut words: Vec<Word> = Vec::new();
        let ghost keys: Seq<u32> = spec_hash_keys_iter(&set).remaining().unref();
        for code in it: set.iter()
            invariant
                it.seq().unref() == keys,
                keys.to_set() == set@,
                keys.no_duplicates(),
                words@.len() <= it.index(),
                word_views(words@).no_duplicates(),
                forall|w: Seq<u8>|
                    w.len() == 3 ==> (#[trigger] word_views(words@).contains(w)
                        <==> keys.take(it.index()).contains(word_code(w) as u32)),
        {
            let ghost seen = keys.take(it.index());
            let ghost before = word_views(words@);
            assert(keys.take(it.index() + 1) =~= seen.push(*code));
            assert(!seen.contains(*code)) by {
                if seen.contains(*code) {
                    let j = choose|j: int| 0 <= j < seen.len() && seen[j] == *code;
                    assert(keys[j] == keys[it.index()]);
                }
            }
            match unpack_word(*code) {
                Some(word) => {
                    words.push(word);
                    proof {
                        let after = word_views(words@);
                        assert(after =~= before.push(word@));
                        lemma_code_word_round_trip(*code as int);
                        assert(!before.contains(word@));
                        assert forall|a: int, b: int|
                            0 <= a < after.len() && 0 <= b < after.len() && a != b implies after[a]
                            != after[b] by {
                            if a < before.len() && b < before.len() {
                                assert(before[a] != before[b]);
                            } else if a < before.len() {
                                assert(before.contains(before[a]));
                            } else {
                                assert(before.contains(before[b]));
                            }
                        }
                        assert forall|w: Seq<u8>| w.len() == 3 implies (#[trigger] after.contains(w)
                            <==> seen.push(*code).contains(word_code(w) as u32)) by {
                            lemma_word_code_round_trip(w);
                            if word_code(w) == *code {
                                lemma_word_code_injective(w, word@);
                                assert(after[before.len() as int] == w);
                                assert(seen.push(*code)[seen.len() as int] == *code);
                            } else {
                                if after.contains(w) {
                                    let j = choose|j: int| 0 <= j < after.len() && after[j] == w;
                                    assert(before[j] == w);
                                    assert(before.contains(w));
                                    let k = choose|k: int|
                                        0 <= k < seen.len() && seen[k] == word_code(w) as u32;
                                    assert(seen.push(*code)[k] == word_code(w) as u32);
                                }
                                if seen.push(*code).contains(word_code(w) as u32) {
                                    let k = choose|k: int|
                                        0 <= k < seen.push(*code).len() && seen.push(*code)[k]
                                            == word_code(w) as u32;
                                    assert(seen[k] == word_code(w) as u32);
                                    assert(before.contains(w));
                                    let j = choose|j: int| 0 <= j < before.len() && before[j] == w;
                                    assert(after[j] == w);
                                }
                            }
                        }
                    }
                },
                None => {
                    proof {
                        assert forall|w: Seq<u8>| w.len() == 3 implies (#[trigger] before.contains(w)
                            <==> seen.push(*code).contains(word_code(w) as u32)) by {
                            lemma_word_code_round_trip(w);
                            if before.contains(w) {
                                let k = choose|k: int|
                                    0 <= k < seen.len() && seen[k] == word_code(w) as u32;
                                assert(seen.push(*code)[k] == word_code(w) as u32);
                            }
                            if seen.push(*code).contains(word_code(w) as u32) {
                                let k = choose|k: int|
                                    0 <= k < seen.push(*code).len() && seen.push(*code)[k]
                                        == word_code(w) as u32;
                                assert(seen[k] == word_code(w) as u32);
                            }
                        }
                    }
                },
            }
        }
        proof {
            let built = word_views(words@);
            assert(keys.take(keys.len() as int) =~= keys);
            keys.unique_seq_to_set();
            assert forall|w: Seq<u8>| w.len() == 3 implies (#[trigger] built.contains(w)
                <==> set@.contains(word_code(w) as u32)) by {
                assert(keys.contains(word_code(w) as u32) <==> keys.to_set().contains(
                    word_code(w) as u32,
                ));
            }
        }
        HashedDictionary { words, codes: set }
    }

    /// Every word of a dictionary is three bytes long.
    pub proof fn lemma_words_are_three_bytes(&self)
        ensures
            forall|i: int| 0 <= i < self@.len() ==> (#[trigger] self@[i]).len() == 3,
    {
    }

    /// Number of words. No word occurs twice among them.
    pub fn len(&self) -> (n: usize)
        ensures
            n == self@.len(),
            self@.no_duplicates(),
    {
        proof {
            use_type_invariant(self);
        }
        self.words.len()
    }

    /// The word at `i` in enumeration order.
    pub fn word(&self, i: usize) -> (word: Word)
        requires
            i < self@.len(),
        ensures
            word@ == self@[i as int],
            self@[i as int].len() == 3,
    {
        self.words[i]
    }

    /// Tests whether every word is made of lowercase ASCII letters.
    pub fn is_lowercase(&self) -> (b: bool)
        ensures
            b == all_lowercase(self@),
    {
        let n = self.words.len();
        let mut i: usize = 0;
        while i < n
            invariant
                i <= n,
                n == self.words@.len(),
                forall|k: int| 0 <= k < i ==> all_letters(#[trigger] self@[k]),
            decreases n - i,
        {
            if !is_lowercase_word(&self.words[i]) {
                assert(!all_letters(self@[i as int]));
                return false;
            }
            i += 1;
        }
        true
    }

    /// Tests whether `word` is in the dictionary.
    pub fn contains(&self, word: &Word) -> (b: bool)
        ensures
            b == self@.contains(word@),
            b == self.word_set().contains(word@),
    {
        proof {
            use_type_invariant(self);
        }
        let code = pack_word(word);
        self.codes.contains(&code)
    }
}

} // verus!
