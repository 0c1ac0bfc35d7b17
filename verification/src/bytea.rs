//! A Stream that is not text, carried the way `PostgreSQL` itself writes
//! binary: the bytea hex form, `\x` and two digits a byte.
//!
//! A text column holds UTF-8 without a NUL and nothing else, so a Stream
//! that is anything else is inserted as the hex literal a bytea column
//! reads as the bytes and a text column keeps verbatim. Coming back, a
//! value in that form is the bytes again — which is what a bytea column
//! answers under the default `bytea_output`, and what a text column that
//! kept the literal answers too. Text that happens to start with `\x` and
//! run in hex is read as bytes; that is `PostgreSQL`'s own ambiguity, and
//! the same one.

use vstd::prelude::*;
use vstd::utf8::{
    decode_utf8, decode_utf8_encode_utf8, encode_utf8, encode_utf8_decode_utf8,
    encode_utf8_valid_utf8, valid_utf8,
};

use crate::text::{characters, lemma_nul_bytes};

verus! {

/// The lower-case digit that stands for `value`, which is under sixteen.
pub open spec fn hex_digit(value: int) -> char {
    if value < 10 {
        (0x30 + value) as char
    } else {
        (0x57 + value) as char
    }
}

/// What a hex digit stands for, lower or upper case.
pub open spec fn hex_value(c: char) -> Option<int> {
    if '0' <= c <= '9' {
        Some(c as u32 - 0x30)
    } else if 'a' <= c <= 'f' {
        Some(c as u32 - 0x57)
    } else if 'A' <= c <= 'F' {
        Some(c as u32 - 0x37)
    } else {
        None
    }
}

/// Two lower-case digits a byte, behind `\x`.
pub open spec fn hex_form(bytes: Seq<u8>) -> Seq<char> {
    seq!['\\', 'x'] + Seq::new(
        2 * bytes.len(),
        |i: int|
            if i % 2 == 0 {
                hex_digit(bytes[i / 2] as int / 16)
            } else {
                hex_digit(bytes[i / 2] as int % 16)
            },
    )
}

/// Whether a text is in the hex form: `\x`, then hex digits and an even
/// number of them.
pub open spec fn in_hex_form(text: Seq<char>) -> bool {
    &&& text.len() >= 2
    &&& text.len() % 2 == 0
    &&& text[0] == '\\'
    &&& text[1] == 'x'
    &&& forall|i: int| 2 <= i < text.len() ==> hex_value(#[trigger] text[i]) is Some
}

/// The bytes that a text in the hex form names.
pub open spec fn hex_named(text: Seq<char>) -> Option<Seq<u8>> {
    if in_hex_form(text) {
        Some(
            Seq::new(
                ((text.len() - 2) / 2) as nat,
                |i: int|
                    (hex_value(text[2 * i + 2])->0 * 16 + hex_value(text[2 * i + 3])->0) as u8,
            ),
        )
    } else {
        None
    }
}

/// The bytes that a column value carries.
pub open spec fn carried(text: Seq<char>) -> Seq<u8> {
    match hex_named(text) {
        Some(bytes) => bytes,
        None => encode_utf8(text),
    }
}

/// Whether a text column can hold these bytes as they are: UTF-8 without a
/// NUL.
pub open spec fn holds_text(bytes: Seq<u8>) -> bool {
    valid_utf8(bytes) && !bytes.contains(0)
}

/// The text that carries these bytes in a column: what they encode where a
/// text column can hold it, the hex form otherwise.
pub open spec fn carrying(bytes: Seq<u8>) -> Seq<char> {
    if holds_text(bytes) {
        decode_utf8(bytes)
    } else {
        hex_form(bytes)
    }
}

/// Whether `bytes` are text that a text column can hold: UTF-8 without a
/// NUL.
#[must_use]
pub fn is_text(bytes: &[u8]) -> (is: bool)
    ensures
        is == holds_text(bytes@),
{
    let mut at: usize = 0;
    while at < bytes.len()
        invariant
            at <= bytes@.len(),
            forall|i: int| 0 <= i < at ==> bytes@[i] != 0,
        decreases bytes@.len() - at,
    {
        if bytes[at] == 0 {
            assert(bytes@[at as int] == 0);
            return false;
        }
        at = at + 1;
    }
    core::str::from_utf8(bytes).is_ok()
}

/// `bytes` in the bytea hex form: `\x` then two lower-case digits a byte.
#[must_use]
pub fn hex_literal(bytes: &[u8]) -> (literal: String)
    ensures
        literal@ == hex_form(bytes@),
{
    let mut literal = String::new();
    literal.push('\\');
    literal.push('x');
    let mut at: usize = 0;
    assert(literal@ == hex_form(bytes@.take(0)));
    while at < bytes.len()
        invariant
            at <= bytes@.len(),
            literal@ == hex_form(bytes@.take(at as int)),
        decreases bytes@.len() - at,
    {
        let byte: u8 = bytes[at];
        literal.push(digit_of(byte / 16));
        literal.push(digit_of(byte % 16));
        assert(literal@ == hex_form(bytes@.take(at + 1)));
        at = at + 1;
    }
    assert(bytes@.take(at as int) == bytes@);
    literal
}

/// The lower-case digit that stands for `value`.
fn digit_of(value: u8) -> (digit: char)
    requires
        value < 16,
    ensures
        digit == hex_digit(value as int),
{
    if value < 10 {
        (0x30 + value) as char
    } else {
        (0x57 + value) as char
    }
}

/// What a hex digit stands for.
fn value_of(digit: char) -> (value: Option<u8>)
    ensures
        match hex_value(digit) {
            Some(v) => value matches Some(u) && u == v && u < 16,
            None => value is None,
        },
{
    if '0' <= digit && digit <= '9' {
        Some(digit as u8 - 0x30)
    } else if 'a' <= digit && digit <= 'f' {
        Some(digit as u8 - 0x57)
    } else if 'A' <= digit && digit <= 'F' {
        Some(digit as u8 - 0x37)
    } else {
        None
    }
}

/// The bytes a value in the bytea hex form names, or `None` when `text` is
/// not in that form.
#[must_use]
pub fn from_hex_literal(text: &str) -> (bytes: Option<Vec<u8>>)
    ensures
        match hex_named(text@) {
            Some(named) => bytes matches Some(b) && b@ == named,
            None => bytes is None,
        },
{
    let chars = characters(text);
    if chars.len() < 2 || chars.len() % 2 != 0 || chars[0] != '\\' || chars[1] != 'x' {
        return None;
    }
    let mut bytes: Vec<u8> = Vec::new();
    let mut at: usize = 2;
    while at < chars.len()
        invariant
            chars@ == text@,
            chars@.len() % 2 == 0,
            2 <= at <= chars@.len(),
            at % 2 == 0,
            text@[0] == '\\',
            text@[1] == 'x',
            forall|i: int| 2 <= i < at ==> hex_value(#[trigger] text@[i]) is Some,
            bytes@.len() == (at - 2) / 2,
            forall|i: int|
                0 <= i < bytes@.len() ==> #[trigger] bytes@[i] == (hex_value(text@[2 * i + 2])->0
                    * 16 + hex_value(text@[2 * i + 3])->0) as u8,
        decreases chars@.len() - at,
    {
        match (value_of(chars[at]), value_of(chars[at + 1])) {
            (Some(high), Some(low)) => {
                bytes.push(high * 16 + low);
            },
            _ => {
                return None;
            },
        }
        at = at + 2;
    }
    assert(bytes@ == hex_named(text@)->0);
    Some(bytes)
}

/// A column value as the bytes it carries: decoded when in the hex form,
/// the text's bytes otherwise.
#[must_use]
pub fn column_bytes(text: String) -> (bytes: Vec<u8>)
    ensures
        bytes@ == carried(text@),
{
    match from_hex_literal(text.as_str()) {
        Some(bytes) => bytes,
        None => text.as_str().as_bytes_vec(),
    }
}

/// Bytes round trip through the hex form.
pub proof fn law_hex_form_names_its_bytes(bytes: Seq<u8>)
    ensures
        hex_named(hex_form(bytes)) == Some(bytes),
        carried(hex_form(bytes)) == bytes,
{
    let text = hex_form(bytes);
    assert(in_hex_form(text)) by {
        assert forall|i: int| 2 <= i < text.len() implies hex_value(#[trigger] text[i]) is Some by {
            lemma_hex_form_at(bytes, (i - 2) / 2);
        }
    }
    let named = hex_named(text)->0;
    assert forall|i: int| 0 <= i < bytes.len() implies #[trigger] named[i] == bytes[i] by {
        lemma_hex_form_at(bytes, i);
    }
    assert(named == bytes);
}

/// A hex digit stands for the value that it was written for.
proof fn lemma_hex_digit(value: int)
    requires
        0 <= value < 16,
    ensures
        hex_value(hex_digit(value)) == Some(value),
{
}

/// Each byte has its two digits in the hex form.
proof fn lemma_hex_form_at(bytes: Seq<u8>, at: int)
    requires
        0 <= at < bytes.len(),
    ensures
        hex_value(hex_form(bytes)[2 * at + 2]) == Some(bytes[at] as int / 16),
        hex_value(hex_form(bytes)[2 * at + 3]) == Some(bytes[at] as int % 16),
{
    let byte = bytes[at] as int;
    assert(hex_form(bytes)[2 * at + 2] == hex_digit(byte / 16));
    assert(hex_form(bytes)[2 * at + 3] == hex_digit(byte % 16));
    lemma_hex_digit(byte / 16);
    lemma_hex_digit(byte % 16);
}

/// What carries a Stream in a column carries it whole, text and binary
/// alike, but for text that is itself in the hex form.
pub proof fn law_a_column_carries_its_stream(bytes: Seq<u8>)
    requires
        !(holds_text(bytes) && in_hex_form(decode_utf8(bytes))),
    ensures
        carried(carrying(bytes)) == bytes,
{
    if holds_text(bytes) {
        decode_utf8_encode_utf8(bytes);
    } else {
        law_hex_form_names_its_bytes(bytes);
    }
}

/// What carries a Stream in a column has no NUL, whatever the Stream is.
pub proof fn law_what_carries_has_no_nul(bytes: Seq<u8>)
    ensures
        !carrying(bytes).contains('\0'),
{
    if holds_text(bytes) {
        decode_utf8_encode_utf8(bytes);
        lemma_nul_bytes(decode_utf8(bytes));
    } else {
        let text = hex_form(bytes);
        assert forall|i: int| 0 <= i < text.len() implies text[i] != '\0' by {
            if i >= 2 {
                let byte = bytes[(i - 2) / 2] as int;
                assert(text[i] == hex_digit(byte / 16) || text[i] == hex_digit(byte % 16));
            }
        }
    }
}

/// The hex form is a backslash, an `x`, and for each byte the digit of its
/// upper half and the digit of its lower half, in lower case.
pub proof fn law_the_hex_form_is_two_digits_a_byte(bytes: Seq<u8>)
    ensures
        ({
            let text = hex_form(bytes);
            let digits = "0123456789abcdef"@;
            &&& text.len() == 2 + 2 * bytes.len()
            &&& text[0] == '\\'
            &&& text[1] == 'x'
            &&& forall|i: int|
                0 <= i < bytes.len() ==> text[2 + 2 * i] == digits[#[trigger] bytes[i] as int / 16]
                    && text[3 + 2 * i] == digits[bytes[i] as int % 16]
        }),
{
    let text = hex_form(bytes);
    let digits = "0123456789abcdef"@;
    reveal_strlit("0123456789abcdef");
    assert forall|i: int| 0 <= i < bytes.len() implies text[2 + 2 * i]
        == digits[#[trigger] bytes[i] as int / 16] && text[3 + 2 * i] == digits[bytes[i] as int
        % 16] by {
        let byte = bytes[i] as int;
        assert(text[2 + 2 * i] == hex_digit(byte / 16));
        assert(text[3 + 2 * i] == hex_digit(byte % 16));
    }
}

/// Whether a text is a backslash, an `x`, and an even number of hex digits of
/// either case.
pub open spec fn looks_like_hex(text: Seq<char>) -> bool {
    &&& text.len() >= 2
    &&& text.len() % 2 == 0
    &&& text[0] == '\\'
    &&& text[1] == 'x'
    &&& forall|i: int|
        2 <= i < text.len() ==> "0123456789abcdefABCDEF"@.contains(#[trigger] text[i])
}

/// A digit has a value where it is one of either case, and then it is that
/// digit of the sixteen.
proof fn lemma_hex_digits_of_either_case(c: char)
    ensures
        hex_value(c) is Some <==> "0123456789abcdefABCDEF"@.contains(c),
        hex_value(c) matches Some(value) ==> 0 <= value < 16 && ("0123456789abcdef"@[value] == c
            || "0123456789ABCDEF"@[value] == c),
{
    let all = "0123456789abcdefABCDEF"@;
    reveal_strlit("0123456789abcdefABCDEF");
    reveal_strlit("0123456789abcdef");
    reveal_strlit("0123456789ABCDEF");
    if '0' <= c <= '9' {
        assert(all[c as int - '0' as int] == c);
    } else if 'a' <= c <= 'f' {
        assert(all[10 + c as int - 'a' as int] == c);
    } else if 'A' <= c <= 'F' {
        assert(all[16 + c as int - 'A' as int] == c);
    }
}

/// A text names bytes exactly where it is in the hex form, in either case:
/// half as many as it has digits, each the one whose two digits it has. Any
/// other column value carries its own UTF-8.
pub proof fn law_a_column_carries_its_text_or_the_bytes_it_names(text: Seq<char>)
    ensures
        hex_named(text) is Some <==> looks_like_hex(text),
        !looks_like_hex(text) ==> carried(text) == encode_utf8(text),
        looks_like_hex(text) ==> {
            let bytes = carried(text);
            let lower = "0123456789abcdef"@;
            let upper = "0123456789ABCDEF"@;
            &&& hex_named(text) == Some(bytes)
            &&& text.len() == 2 + 2 * bytes.len()
            &&& forall|i: int|
                0 <= i < bytes.len() ==> {
                    let high = #[trigger] bytes[i] as int / 16;
                    let low = bytes[i] as int % 16;
                    &&& text[2 + 2 * i] == lower[high] || text[2 + 2 * i] == upper[high]
                    &&& text[3 + 2 * i] == lower[low] || text[3 + 2 * i] == upper[low]
                }
        },
{
    assert(in_hex_form(text) <==> looks_like_hex(text)) by {
        assert forall|i: int| 2 <= i < text.len() implies (hex_value(#[trigger] text[i]) is Some
            <==> "0123456789abcdefABCDEF"@.contains(text[i])) by {
            lemma_hex_digits_of_either_case(text[i]);
        }
    }
    if looks_like_hex(text) {
        let bytes = carried(text);
        assert forall|i: int| 0 <= i < bytes.len() implies ({
            let high = #[trigger] bytes[i] as int / 16;
            let low = bytes[i] as int % 16;
            &&& text[2 + 2 * i] == "0123456789abcdef"@[high] || text[2 + 2 * i]
                == "0123456789ABCDEF"@[high]
            &&& text[3 + 2 * i] == "0123456789abcdef"@[low] || text[3 + 2 * i]
                == "0123456789ABCDEF"@[low]
        }) by {
            lemma_hex_digits_of_either_case(text[2 * i + 2]);
            lemma_hex_digits_of_either_case(text[2 * i + 3]);
            let high = hex_value(text[2 * i + 2])->0;
            let low = hex_value(text[2 * i + 3])->0;
            assert(bytes[i] == (high * 16 + low) as u8);
        }
    }
}

/// Text without a NUL, of whatever letters, is text and is carried as it is.
pub proof fn law_text_is_carried_as_it_is(text: Seq<char>)
    ensures
        holds_text(encode_utf8(text)) <==> !text.contains('\0'),
        !text.contains('\0') ==> carrying(encode_utf8(text)) == text,
{
    encode_utf8_valid_utf8(text);
    encode_utf8_decode_utf8(text);
    lemma_nul_bytes(text);
}

/// What is not UTF-8, or has a NUL, is not text and is carried in the hex
/// form: a backslash, an `x`, and two digits a byte.
pub proof fn law_what_is_not_text_is_carried_in_hex(bytes: Seq<u8>)
    requires
        !valid_utf8(bytes) || bytes.contains(0),
    ensures
        !holds_text(bytes),
        ({
            let text = carrying(bytes);
            let digits = "0123456789abcdef"@;
            &&& text.len() == 2 + 2 * bytes.len()
            &&& text[0] == '\\'
            &&& text[1] == 'x'
            &&& forall|i: int|
                0 <= i < bytes.len() ==> text[2 + 2 * i] == digits[#[trigger] bytes[i] as int / 16]
                    && text[3 + 2 * i] == digits[bytes[i] as int % 16]
        }),
{
    law_the_hex_form_is_two_digits_a_byte(bytes);
}

} // verus!
