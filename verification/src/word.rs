//! Three-letter words as fixed byte triples, and the integer code that keys them in hash sets.

use vstd::prelude::*;

verus! {

/// A word: three bytes, lowercase ASCII letters in well-formed input.
pub type Word = [u8; 3];

/// Number of distinct word codes: every code is below it.
pub const CODE_LIMIT: u32 = 0x100_0000;

/// The byte of `'a'`.
pub const FIRST_LETTER: u8 = 97;

/// The byte of `'z'`.
pub const LAST_LETTER: u8 = 122;

/// A byte is one of the 26 lowercase ASCII letters.
pub open spec fn is_letter(b: u8) -> bool {
    FIRST_LETTER <= b <= LAST_LETTER
}

/// Every byte of `bytes` is a lowercase ASCII letter.
pub open spec fn all_letters(bytes: Seq<u8>) -> bool {
    forall|i: int| 0 <= i < bytes.len() ==> is_letter(#[trigger] bytes[i])
}

/// Every word of the list is made of lowercase ASCII letters.
pub open spec fn all_lowercase(words: Seq<Seq<u8>>) -> bool {
    forall|i: int| 0 <= i < words.len() ==> all_letters(#[trigger] words[i])
}

/// The code of a three-byte word: its bytes read as one big-endian number.
pub open spec fn word_code(w: Seq<u8>) -> int {
    w[0] as int * 0x1_0000 + w[1] as int * 0x100 + w[2] as int
}

/// The word whose code is `code`, for `0 <= code < CODE_LIMIT`.
pub open spec fn code_word(code: int) -> Seq<u8> {
    seq![(code / 0x1_0000) as u8, (code / 0x100 % 0x100) as u8, (code % 0x100) as u8]
}

/// Two three-byte words with the same code are the same word.
pub proof fn lemma_word_code_injective(a: Seq<u8>, b: Seq<u8>)
    requires
        a.len() == 3,
        b.len() == 3,
        word_code(a) == word_code(b),
    ensures
        a == b,
{
    assert(a =~= b);
}

/// Every code below the limit is the code of exactly the word `code_word` gives.
pub proof fn lemma_code_word_round_trip(code: int)
    requires
        0 <= code < CODE_LIMIT,
    ensures
        code_word(code).len() == 3,
        word_code(code_word(code)) == code,
{
}

/// Every three-byte word has a code below the limit, and `code_word` gives the word back.
pub proof fn lemma_word_code_round_trip(w: Seq<u8>)
    requires
        w.len() == 3,
    ensures
        0 <= word_code(w) < CODE_LIMIT,
        code_word(word_code(w)) == w,
{
    assert(code_word(word_code(w)) =~= w);
}

/// Packs a word into its code.
pub fn pack_word(word: &Word) -> (code: u32)
    ensures
        code == word_code(word@),
        code < CODE_LIMIT,
{
    (word[0] as u32) * 0x1_0000 + (word[1] as u32) * 0x100 + (word[2] as u32)
}

/// Unpacks a code into its word; codes at or above the limit belong to no word.
pub fn unpack_word(code: u32) -> (word: Option<Word>)
    ensures
        code < CODE_LIMIT ==> word is Some && word->0@ == code_word(code as int),
        code >= CODE_LIMIT ==> word is None,
{
    if code < CODE_LIMIT {
        let w: Word = [(code / 0x1_0000) as u8, (code / 0x100 % 0x100) as u8, (code % 0x100) as u8];
        assert(w@ =~= code_word(code as int));
        Some(w)
    } else {
        None
    }
}

/// Reads a word from a byte string: only strings of exactly three bytes are words.
pub fn word_from_bytes(bytes: &[u8]) -> (word: Option<Word>)
    ensures
        bytes@.len() == 3 ==> word is Some && word->0@ == bytes@,
        bytes@.len() != 3 ==> word is None,
{
    if bytes.len() == 3 {
        let w: Word = [bytes[0], bytes[1], bytes[2]];
        assert(w@ =~= bytes@);
        Some(w)
    } else {
        None
    }
}

/// Tests whether all three bytes of a word are lowercase ASCII letters.
pub fn is_lowercase_word(word: &Word) -> (b: bool)
    ensures
        b == all_letters(word@),
{
    let b = FIRST_LETTER <= word[0] && word[0] <= LAST_LETTER && FIRST_LETTER <= word[1] && word[1]
        <= LAST_LETTER && FIRST_LETTER <= word[2] && word[2] <= LAST_LETTER;
    proof {
        if b {
            assert forall|i: int| 0 <= i < word@.len() implies is_letter(#[trigger] word@[i]) by {
                assert(i == 0 || i == 1 || i == 2);
            }
        } else {
            assert(!is_letter(word@[0]) || !is_letter(word@[1]) || !is_letter(word@[2]));
        }
    }
    b
}

} // verus!
