//! Text as the rest of the library needs it: a string as its characters and
//! back, integers in decimal, bytes read as UTF-8, and what counts as white
//! space.

use vstd::prelude::*;
use vstd::utf8::{
    char_is_scalar, decode_utf8, encode_scalar, encode_utf8, has_width_1_encoding, is_scalar,
    leading_byte_width_1, valid_utf8,
};

verus! {

/// `String::push` appends the one character.
pub assume_specification[ String::push ](text: &mut String, c: char)
    ensures
        final(text)@ == old(text)@.push(c),
;

/// `core::str::Utf8Error`: where bytes stop being UTF-8, of which nothing is
/// said.
#[verifier::external_type_specification]
#[verifier::external_body]
pub struct ExUtf8Error(core::str::Utf8Error);

/// `core::str::from_utf8` takes exactly the bytes that are UTF-8, and the
/// string it gives is made of those bytes.
pub assume_specification[ core::str::from_utf8 ](v: &[u8]) -> (text: Result<
    &str,
    core::str::Utf8Error,
>)
    ensures
        text is Ok <==> valid_utf8(v@),
        text matches Ok(s) ==> s@ == decode_utf8(v@),
;

/// What `String::from_utf8_lossy` makes of bytes that are not UTF-8.
pub uninterp spec fn utf8_mended(bytes: Seq<u8>) -> Seq<char>;

/// Bytes as text: what they encode where they are UTF-8, mended where they
/// are not.
pub open spec fn utf8_lossy(bytes: Seq<u8>) -> Seq<char> {
    if valid_utf8(bytes) {
        decode_utf8(bytes)
    } else {
        utf8_mended(bytes)
    }
}

/// `String::from_utf8_lossy`: bytes that are UTF-8 become the text they
/// encode; U+FFFD stands for what is not UTF-8 in the others, and what those
/// become is only named.
#[verifier::external_body]
pub(crate) fn lossy(bytes: &[u8]) -> (text: String)
    ensures
        text@ == if valid_utf8(bytes@) {
            decode_utf8(bytes@)
        } else {
            utf8_mended(bytes@)
        },
{
    String::from_utf8_lossy(bytes).into_owned()
}

/// What `{:?}` writes for a character.
pub uninterp spec fn char_debug(c: char) -> Seq<char>;

/// `char`'s `Debug`: the character in single quotes, escaped where it has
/// to be. Which characters are escaped is only named.
#[verifier::external_body]
pub(crate) fn debug_char(c: char) -> (text: String)
    ensures
        text@ == char_debug(c),
{
    format!("{:?}", c)
}

/// What `{:?}` writes for a string.
pub uninterp spec fn str_debug(text: Seq<char>) -> Seq<char>;

/// `str`'s `Debug`: the text in double quotes, escaped where it has to be.
/// Which characters are escaped is only named.
#[verifier::external_body]
pub(crate) fn debug_str(text: &str) -> (debugged: String)
    ensures
        debugged@ == str_debug(text@),
{
    format!("{:?}", text)
}

/// Whether Unicode calls a character beyond ASCII alphabetic or numeric.
pub uninterp spec fn unicode_alphanumeric(c: char) -> bool;

/// A letter or digit of ASCII.
pub open spec fn ascii_alphanumeric(c: char) -> bool {
    'a' <= c <= 'z' || 'A' <= c <= 'Z' || '0' <= c <= '9'
}

/// A letter or a digit: of ASCII, or what Unicode calls so beyond it.
pub open spec fn alphanumeric(c: char) -> bool {
    if (c as u32) < 0x80 {
        ascii_alphanumeric(c)
    } else {
        unicode_alphanumeric(c)
    }
}

/// `char::is_alphanumeric`: within ASCII the letters and the digits; beyond
/// it, whether Unicode gives the character one of the two properties is only
/// named.
#[verifier::external_body]
pub(crate) fn is_alphanumeric(c: char) -> (is: bool)
    ensures
        is == if (c as u32) < 0x80 {
            ascii_alphanumeric(c)
        } else {
            unicode_alphanumeric(c)
        },
{
    c.is_alphanumeric()
}

/// The white space of Unicode.
pub open spec fn white_space(c: char) -> bool {
    let code = c as u32;
    ||| 0x9 <= code <= 0xd
    ||| code == 0x20
    ||| code == 0x85
    ||| code == 0xa0
    ||| code == 0x1680
    ||| 0x2000 <= code <= 0x200a
    ||| code == 0x2028
    ||| code == 0x2029
    ||| code == 0x202f
    ||| code == 0x205f
    ||| code == 0x3000
}

/// Whether `c` is white space.
pub fn is_white_space(c: char) -> (is: bool)
    ensures
        is == white_space(c),
{
    let code: u32 = c as u32;
    (0x9 <= code && code <= 0xd) || code == 0x20 || code == 0x85 || code == 0xa0 || code == 0x1680
        || (0x2000 <= code && code <= 0x200a) || code == 0x2028 || code == 0x2029 || code == 0x202f
        || code == 0x205f || code == 0x3000
}

/// A letter of ASCII in upper case, any other character as it is.
pub open spec fn ascii_upper(c: char) -> char {
    if 'a' <= c <= 'z' {
        (c as u32 - 0x20) as char
    } else {
        c
    }
}

/// `c` in upper case where it is a letter of ASCII.
pub fn to_ascii_upper(c: char) -> (upper: char)
    ensures
        upper == ascii_upper(c),
{
    if 'a' <= c && c <= 'z' {
        let code: u8 = c as u8;
        (code - 0x20) as char
    } else {
        c
    }
}

/// The digit that stands for `value`, which is under ten.
pub open spec fn digit(value: nat) -> char {
    (0x30 + value) as char
}

/// `value` in decimal, without leading zeros.
pub open spec fn decimal(value: nat) -> Seq<char>
    decreases value,
{
    if value < 10 {
        seq![digit(value)]
    } else {
        decimal(value / 10).push(digit(value % 10))
    }
}

/// `value` in decimal, a minus sign before it where it is negative.
pub open spec fn signed_decimal(value: int) -> Seq<char> {
    if value < 0 {
        seq!['-'] + decimal((-value) as nat)
    } else {
        decimal(value as nat)
    }
}

/// `value` in decimal.
pub fn number(value: u64) -> (text: String)
    ensures
        text@ == decimal(value as nat),
    decreases value,
{
    let mut text = if value < 10 {
        String::new()
    } else {
        number(value / 10)
    };
    let last: u8 = (value % 10) as u8;
    text.push((0x30 + last) as char);
    text
}

/// `value` in decimal, a minus sign before it where it is negative.
pub fn signed_number(value: i32) -> (text: String)
    ensures
        text@ == signed_decimal(value as int),
{
    if value < 0 {
        let mut text = String::new();
        text.push('-');
        text.append(number((-(value as i64)) as u64).as_str());
        text
    } else {
        number(value as u64)
    }
}

/// The characters of `text`.
pub fn characters(text: &str) -> (chars: Vec<char>)
    ensures
        chars@ == text@,
{
    let mut chars: Vec<char> = Vec::new();
    for c in iter: text.chars()
        invariant
            iter.seq() == text@,
            chars@ == text@.take(iter.index() as int),
    {
        chars.push(c);
    }
    assert(text@.take(text@.len() as int) == text@);
    chars
}

/// The characters from `from` up to `to` as text.
pub fn spelled(chars: &[char], from: usize, to: usize) -> (text: String)
    requires
        from <= to <= chars@.len(),
    ensures
        text@ == chars@.subrange(from as int, to as int),
{
    let mut text = String::new();
    let mut at: usize = from;
    while at < to
        invariant
            from <= at <= to <= chars@.len(),
            text@ == chars@.subrange(from as int, at as int),
        decreases to - at,
    {
        text.push(chars[at]);
        at = at + 1;
    }
    text
}

/// Whether two texts are the same.
pub fn same(left: &str, right: &str) -> (is: bool)
    ensures
        is == (left@ == right@),
{
    left.to_string() == right.to_string()
}

/// UTF-8 has a zero byte for U+0000 and for nothing else.
proof fn lemma_scalar_nul(scalar: u32)
    requires
        is_scalar(scalar),
    ensures
        encode_scalar(scalar).contains(0) <==> scalar == 0,
{
    assert(scalar <= 0x7f ==> ((scalar & 0x7f) as u8 == 0 <==> scalar == 0)) by (bit_vector);
    assert(0xc0 | ((scalar >> 6) & 0x1f) as u8 != 0) by (bit_vector);
    assert(0xe0 | ((scalar >> 12) & 0x0f) as u8 != 0) by (bit_vector);
    assert(0xf0 | ((scalar >> 18) & 0x7) as u8 != 0) by (bit_vector);
    assert(0x80 | (scalar & 0x3f) as u8 != 0) by (bit_vector);
    assert(0x80 | ((scalar >> 6) & 0x3f) as u8 != 0) by (bit_vector);
    assert(0x80 | ((scalar >> 12) & 0x3f) as u8 != 0) by (bit_vector);
    if has_width_1_encoding(scalar) {
        assert(encode_scalar(scalar)[0] == leading_byte_width_1(scalar));
    }
}

/// UTF-8 has four bytes a character at most.
pub proof fn lemma_utf8_length(text: Seq<char>)
    ensures
        encode_utf8(text).len() <= 4 * text.len(),
    decreases text.len(),
{
    if text.len() > 0 {
        lemma_utf8_length(text.drop_first());
    }
}

/// U+0000 is the NUL.
proof fn lemma_char_nul(c: char)
    ensures
        c as u32 == 0 <==> c == '\0',
{
}

/// The UTF-8 of a text has a zero byte exactly where the text has a NUL.
pub proof fn lemma_nul_bytes(text: Seq<char>)
    ensures
        encode_utf8(text).contains(0) <==> text.contains('\0'),
    decreases text.len(),
{
    if text.len() > 0 {
        let first: char = text[0];
        let head = encode_scalar(first as u32);
        let tail = encode_utf8(text.drop_first());
        char_is_scalar(first);
        lemma_scalar_nul(first as u32);
        lemma_char_nul(first);
        assert(encode_utf8(text) == head + tail);
        lemma_nul_bytes(text.drop_first());
        let bytes = head + tail;
        assert(bytes.contains(0) <==> head.contains(0) || tail.contains(0)) by {
            if head.contains(0) {
                let i = head.index_of(0);
                assert(bytes[i] == 0);
            }
            if tail.contains(0) {
                let i = tail.index_of(0);
                assert(bytes[head.len() + i] == 0);
            }
        }
        assert(text.contains('\0') <==> text[0] == '\0' || text.drop_first().contains('\0')) by {
            if text.drop_first().contains('\0') {
                let i = text.drop_first().index_of('\0');
                assert(text[i + 1] == '\0');
            }
            if text.contains('\0') && text[0] != '\0' {
                let i = text.index_of('\0');
                assert(text.drop_first()[i - 1] == '\0');
            }
        }
    }
}

/// The number that decimal digits stand for.
pub open spec fn digits_value(digits: Seq<char>) -> int
    decreases digits.len(),
{
    if digits.len() == 0 {
        0
    } else {
        10 * digits_value(digits.drop_last()) + (digits.last() as int - '0' as int)
    }
}

/// A number in decimal is digits that stand for it, without a leading zero;
/// a negative one has a minus sign before them.
pub proof fn law_decimal_stands_for_its_number(value: nat)
    ensures
        decimal(value).len() > 0,
        forall|i: int| 0 <= i < decimal(value).len() ==> '0' <= #[trigger] decimal(value)[i] <= '9',
        decimal(value).len() > 1 ==> decimal(value)[0] != '0',
        digits_value(decimal(value)) == value,
        signed_decimal(value as int) == decimal(value),
        value > 0 ==> signed_decimal(-value) == seq!['-'] + decimal(value),
    decreases value,
{
    if value < 10 {
        assert(decimal(value).drop_last() == Seq::<char>::empty());
        assert(digits_value(Seq::<char>::empty()) == 0);
    } else {
        law_decimal_stands_for_its_number(value / 10);
        let shorter = decimal(value / 10);
        assert(decimal(value).drop_last() == shorter);
        assert(decimal(value)[0] == shorter[0]);
        if shorter.len() == 1 {
            assert(shorter.drop_last() == Seq::<char>::empty());
            assert(digits_value(Seq::<char>::empty()) == 0);
            assert(digits_value(shorter) == shorter[0] as int - '0' as int);
        }
    }
}

/// The letters of ASCII have an upper case, and nothing else is changed.
pub proof fn law_upper_case_is_asciis(c: char)
    ensures
        'a' <= c <= 'z' ==> ascii_upper(c) == "ABCDEFGHIJKLMNOPQRSTUVWXYZ"@[c as int - 'a' as int],
        !('a' <= c <= 'z') ==> ascii_upper(c) == c,
{
    reveal_strlit("ABCDEFGHIJKLMNOPQRSTUVWXYZ");
}

/// Of ASCII just the letters and the digits are alphanumeric.
pub proof fn law_asciis_letters_and_digits(c: char)
    requires
        (c as u32) < 0x80,
    ensures
        alphanumeric(c)
            <==> "0123456789ABCDEFGHIJKLMNOPQRSTUVWXYZabcdefghijklmnopqrstuvwxyz"@.contains(c),
{
    let all = "0123456789ABCDEFGHIJKLMNOPQRSTUVWXYZabcdefghijklmnopqrstuvwxyz"@;
    reveal_strlit("0123456789ABCDEFGHIJKLMNOPQRSTUVWXYZabcdefghijklmnopqrstuvwxyz");
    if '0' <= c <= '9' {
        assert(all[c as int - '0' as int] == c);
    } else if 'A' <= c <= 'Z' {
        assert(all[10 + c as int - 'A' as int] == c);
    } else if 'a' <= c <= 'z' {
        assert(all[36 + c as int - 'a' as int] == c);
    }
}

} // verus!
