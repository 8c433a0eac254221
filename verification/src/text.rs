//! Text output: decimal numbers, padded cells, and the two trusted calls that build strings.

use vstd::prelude::*;
use vstd::utf8::{
    decode_utf8, encode_utf8, encode_utf8_decode_utf8, encode_utf8_valid_utf8, is_ascii_chars,
    is_ascii_chars_encode_utf8, valid_utf8,
};

verus! {

/// The character of a decimal digit.
pub open spec fn digit_char(d: int) -> char {
    (48 + d) as u8 as char
}

/// The decimal digits of `n`, most significant first, without leading zeros.
pub open spec fn decimal(n: nat) -> Seq<char>
    decreases n,
{
    if n < 10 {
        seq![digit_char(n as int)]
    } else {
        decimal(n / 10).push(digit_char((n % 10) as int))
    }
}

/// `width` spaces.
pub open spec fn spaces(width: nat) -> Seq<char> {
    Seq::new(width, |i: int| ' ')
}

/// `text` moved to the right edge of a field of `width` characters; longer text is kept whole.
pub open spec fn right_aligned(text: Seq<char>, width: nat) -> Seq<char> {
    if text.len() >= width {
        text
    } else {
        spaces((width - text.len()) as nat) + text
    }
}

/// Each byte read as one character.
pub open spec fn byte_chars(bytes: Seq<u8>) -> Seq<char> {
    Seq::new(bytes.len(), |i: int| bytes[i] as char)
}

/// What `String::from_utf8_lossy` makes of a byte string.
pub uninterp spec fn lossy_text(bytes: Seq<u8>) -> Seq<char>;

/// `String::push`: appends one character to the string.
#[verifier::external_body]
pub(crate) fn push_char(text: &mut String, c: char)
    ensures
        final(text)@ == old(text)@.push(c),
{
    text.push(c);
}

/// `String::from_utf8_lossy`: the text of a byte string, with invalid sequences replaced.
/// Valid UTF-8 is decoded as it stands.
#[verifier::external_body]
pub(crate) fn lossy_string(bytes: &[u8]) -> (text: String)
    ensures
        text@ == lossy_text(bytes@),
        valid_utf8(bytes@) ==> text@ == decode_utf8(bytes@),
{
    String::from_utf8_lossy(bytes).into_owned()
}

/// Bytes below 128 are valid UTF-8 and decode to themselves, one character each.
pub proof fn lemma_ascii_bytes_decode(bytes: Seq<u8>)
    requires
        forall|i: int| 0 <= i < bytes.len() ==> #[trigger] bytes[i] < 128,
    ensures
        valid_utf8(bytes),
        decode_utf8(bytes) == byte_chars(bytes),
{
    let chars = byte_chars(bytes);
    assert(is_ascii_chars(chars));
    is_ascii_chars_encode_utf8(chars);
    assert(encode_utf8(chars) =~= bytes);
    encode_utf8_valid_utf8(chars);
    encode_utf8_decode_utf8(chars);
}

/// The number of decimal digits of `n`.
pub fn decimal_len(n: usize) -> (len: usize)
    ensures
        len == decimal(n as nat).len(),
        1 <= len <= 20,
    decreases n,
{
    if n < 10 {
        1
    } else {
        let shorter = decimal_len(n / 10);
        proof {
            lemma_decimal_len_bound(n as nat);
        }
        shorter + 1
    }
}

proof fn lemma_decimal_len_bound(n: nat)
    requires
        n <= usize::MAX,
    ensures
        decimal(n).len() <= 20,
{
    reveal_with_fuel(decimal, 21);
    assert(usize::MAX <= 0xffff_ffff_ffff_ffff);
}

/// Appends the decimal digits of `n`.
pub fn push_decimal(text: &mut String, n: usize)
    ensures
        final(text)@ == old(text)@ + decimal(n as nat),
    decreases n,
{
    if n < 10 {
        push_char(text, (48u8 + n as u8) as char);
        assert(text@ =~= old(text)@ + decimal(n as nat));
    } else {
        push_decimal(text, n / 10);
        push_char(text, (48u8 + (n % 10) as u8) as char);
        assert(text@ =~= old(text)@ + decimal(n as nat));
    }
}

/// Appends `width` spaces.
pub fn push_spaces(text: &mut String, width: usize)
    ensures
        final(text)@ == old(text)@ + spaces(width as nat),
{
    let mut i: usize = 0;
    assert(text@ =~= old(text)@ + spaces(0));
    while i < width
        invariant
            i <= width,
            text@ == old(text)@ + spaces(i as nat),
        decreases width - i,
    {
        push_char(text, ' ');
        i += 1;
        assert(text@ =~= old(text)@ + spaces(i as nat));
    }
}

/// Appends `n` in decimal, right-aligned in a field of `width` characters.
pub fn push_right_aligned(text: &mut String, n: usize, width: usize)
    ensures
        final(text)@ == old(text)@ + right_aligned(decimal(n as nat), width as nat),
{
    let len = decimal_len(n);
    if len < width {
        push_spaces(text, width - len);
        push_decimal(text, n);
        assert(text@ =~= old(text)@ + right_aligned(decimal(n as nat), width as nat));
    } else {
        push_decimal(text, n);
    }
}

} // verus!
