//! The protocol's framing and primitive fields, version 3.0: a type byte,
//! a big-endian length that counts itself, and a body of integers and
//! NUL-terminated strings. The startup message alone has no type byte; the
//! version number opens it instead.
//!
//! What a client sends is in `frontend.rs` and what a server sends is in
//! `backend.rs`; this file is what both are made of — the framing, the
//! protocol's own fields as [`Postgres`] on the byte cursor and
//! [`PostgresWrite`] beside the byte writer — and the constants the two
//! logins this crate speaks are named by. MD5 and SCRAM are not
//! implemented; a server that asks for either is answered with an error
//! that says so.

use vstd::prelude::*;
use vstd::slice::slice_subrange;
use vstd::utf8::{
    decode_utf8, encode_utf8, encode_utf8_decode_utf8, encode_utf8_valid_utf8, valid_utf8,
};

use crate::cursor::{
    i32_from, i32_of, law_a_delimiter_ends_its_field, law_fields_come_off_the_front, take_i16,
    take_i32, take_until, Cursor,
};
use crate::error::{breaks_off, broken_off, permanent, protocol_error, Fault, TransportError};
use crate::text::{lemma_nul_bytes, lossy, utf8_lossy, utf8_mended};
use crate::writer::{
    i16_bytes, i32_bytes, law_integers_are_written_high_first, ByteWriter,
};

verus! {

/// Version 3.0, as the startup message writes it.
pub const PROTOCOL_3_0: i32 = 196_608;

/// The request for TLS a client may open with; answered `N` here.
pub const SSL_REQUEST: i32 = 80_877_103;

/// The most one message may be: the length it has at most, which counts
/// itself.
pub const MAX_MESSAGE: usize = 64 * 1024 * 1024;

/// Authentication is done.
pub const AUTH_OK: i32 = 0;

/// Send the password as it is.
pub const AUTH_CLEARTEXT: i32 = 3;

/// Send the password hashed with MD5 and a salt. Not implemented.
pub const AUTH_MD5: i32 = 5;

/// Begin SASL, which is SCRAM. Not implemented.
pub const AUTH_SASL: i32 = 10;

/// `text` as a wire string: its UTF-8 and the NUL that ends it.
pub open spec fn cstring_bytes(text: Seq<char>) -> Seq<u8> {
    encode_utf8(text).push(0)
}

/// `count` as the wire's i16, saturating.
pub open spec fn count_bytes(count: nat) -> Seq<u8> {
    i16_bytes(if count <= i16::MAX { count as int } else { i16::MAX as int })
}

/// `length` as the wire's i32, saturating.
pub open spec fn length_bytes(length: nat) -> Seq<u8> {
    i32_bytes(if length <= i32::MAX { length as int } else { i32::MAX as int })
}

/// The type byte where there is one, the length that counts itself, the
/// body.
pub open spec fn framed(kind: Option<u8>, body: Seq<u8>) -> Seq<u8> {
    let head = match kind {
        Some(kind) => seq![kind],
        None => seq![],
    };
    head + length_bytes(body.len() + 4) + body
}

/// The i16 count that comes first, negative read as zero, and what follows
/// it.
pub open spec fn take_count(bytes: Seq<u8>) -> Result<(nat, Seq<u8>), Fault> {
    match take_i16(bytes) {
        Ok((count, rest)) => Ok((if count < 0 { 0 } else { count as nat }, rest)),
        Err(fault) => Err(fault),
    }
}

/// The NUL-terminated string that comes first, lossily UTF-8, and what
/// follows its NUL.
pub open spec fn take_cstring(bytes: Seq<u8>) -> Result<(Seq<char>, Seq<u8>), Fault> {
    match take_until(bytes, 0) {
        Ok((text, rest)) => Ok((utf8_lossy(text), rest)),
        Err(fault) => Err(fault),
    }
}

/// A wire string takes at least its NUL.
pub proof fn lemma_cstring_consumes(bytes: Seq<u8>)
    ensures
        take_cstring(bytes) matches Ok((_, rest)) ==> rest.len() < bytes.len(),
{
    bytes.index_of_first_ensures(0);
}

/// How long the body is behind a length field that counts itself.
pub open spec fn body_length_of(field: Seq<u8>) -> Result<nat, Fault> {
    let length = i32_of(field);
    if length < 4 {
        Err(permanent("a message length under four"@))
    } else if length > MAX_MESSAGE {
        Err(permanent("a message over what Xmip will read"@))
    } else {
        Ok((length - 4) as nat)
    }
}

/// What comes of reading a length and the body behind it off all that a
/// peer sent before it closed, and what is left unread then. Where the
/// message opens the connection, a peer may close before it.
pub open spec fn body_read(bytes: Seq<u8>, opening: bool) -> (
    Result<Option<Seq<u8>>, Fault>,
    Seq<u8>,
) {
    if opening && bytes.len() == 0 {
        (Ok(None), bytes)
    } else if bytes.len() < 4 {
        (Err(broken_off("reading a message length"@)), seq![])
    } else {
        let behind = bytes.skip(4);
        match body_length_of(bytes.take(4)) {
            Err(fault) => (Err(fault), behind),
            Ok(length) => if behind.len() < length {
                (Err(broken_off("reading a message body"@)), seq![])
            } else {
                (Ok(Some(behind.take(length as int))), behind.skip(length as int))
            },
        }
    }
}

/// What comes of reading a typed message off all that a peer sent before it
/// closed, and what is left unread then.
pub open spec fn typed_read(bytes: Seq<u8>) -> (Result<Option<(u8, Seq<u8>)>, Fault>, Seq<u8>) {
    if bytes.len() == 0 {
        (Ok(None), bytes)
    } else {
        match body_read(bytes.skip(1), false) {
            (Ok(Some(body)), rest) => (Ok(Some((bytes[0], body))), rest),
            (Ok(None), rest) => (Ok(None), rest),
            (Err(fault), rest) => (Err(fault), rest),
        }
    }
}

/// An opening message takes at least its length.
pub proof fn lemma_opening_consumes(bytes: Seq<u8>)
    ensures
        body_read(bytes, true) matches (Ok(Some(_)), rest) ==> rest.len() < bytes.len(),
{
}

/// A message takes at least its type byte.
pub proof fn lemma_typed_consumes(bytes: Seq<u8>)
    ensures
        typed_read(bytes) matches (Ok(Some(_)), rest) ==> rest.len() < bytes.len(),
{
}

/// How many bytes come before the body: the length, and the type byte where
/// there is one.
pub open spec fn head_length(typed: bool) -> nat {
    if typed {
        5
    } else {
        4
    }
}

/// How many more bytes of a message to wait for when these have come: the
/// first byte, the rest of the head, the body that the head announces. None
/// once the message is whole.
pub open spec fn wanted_after(bytes: Seq<u8>, typed: bool) -> Result<nat, Fault> {
    let head = head_length(typed);
    if bytes.len() == 0 {
        Ok(1)
    } else if bytes.len() < head {
        Ok((head - bytes.len()) as nat)
    } else {
        match body_length_of(bytes.subrange(head - 4, head as int)) {
            Ok(length) => Ok(
                if bytes.len() < head + length {
                    (head + length - bytes.len()) as nat
                } else {
                    0
                },
            ),
            Err(fault) => Err(fault),
        }
    }
}

/// A type byte where there is one, then the length and body.
#[must_use]
pub fn frame(kind: Option<u8>, body: &[u8]) -> (message: Vec<u8>)
    ensures
        message@ == framed(kind, body@),
{
    let mut out: Vec<u8> = Vec::new();
    if let Some(kind) = kind {
        out.byte(kind);
    }
    let length: usize = if body.len() < i32::MAX as usize {
        body.len() + 4
    } else {
        body.len()
    };
    out.length(length).bytes(body);
    out
}

/// How long the body is behind a length field, the length counting itself.
///
/// # Errors
/// A length under four or over [`MAX_MESSAGE`].
pub fn body_length(field: &[u8]) -> (length: Result<usize, TransportError>)
    requires
        field@.len() == 4,
    ensures
        match body_length_of(field@) {
            Ok(n) => length matches Ok(l) && l == n,
            Err(fault) => length matches Err(e) && e@ == fault,
        },
{
    let length: i32 = i32_from(field);
    if length < 4 {
        return Err(protocol_error("a message length under four"));
    }
    let length: usize = length as usize;
    if length > MAX_MESSAGE {
        return Err(protocol_error("a message over what Xmip will read"));
    }
    Ok(length - 4)
}

/// How many more bytes of a message to read before it can be read as one,
/// when `bytes` have come: none once it is whole. Where nothing has come yet
/// the peer may close instead.
///
/// # Errors
/// A length under four or over [`MAX_MESSAGE`].
pub fn wanted(bytes: &[u8], typed: bool) -> (more: Result<usize, TransportError>)
    ensures
        match wanted_after(bytes@, typed) {
            Ok(n) => more matches Ok(m) && m == n,
            Err(fault) => more matches Err(e) && e@ == fault,
        },
{
    let head: usize = if typed {
        5
    } else {
        4
    };
    if bytes.len() == 0 {
        return Ok(1);
    }
    if bytes.len() < head {
        return Ok(head - bytes.len());
    }
    let length: usize = body_length(slice_subrange(bytes, head - 4, head))?;
    Ok(
        if bytes.len() < head + length {
            head + length - bytes.len()
        } else {
            0
        },
    )
}

/// A typed message: its type byte and body, or `None` when the peer closed.
/// `reader` is all that the peer sent before it closed.
///
/// # Errors
/// A message that breaks off, a length under four or over [`MAX_MESSAGE`].
pub fn read_typed(reader: &mut &[u8]) -> (message: Result<Option<(u8, Vec<u8>)>, TransportError>)
    ensures
        final(reader)@ == typed_read(old(reader)@).1,
        match typed_read(old(reader)@).0 {
            Ok(Some((kind, body))) => message matches Ok(Some(m)) && m.0 == kind && m.1@ == body,
            Ok(None) => message matches Ok(None),
            Err(fault) => message matches Err(e) && e@ == fault,
        },
{
    if reader.len() == 0 {
        return Ok(None);
    }
    let kind: u8 = reader[0];
    *reader = slice_subrange(*reader, 1, reader.len());
    match read_body(reader, Some(kind)) {
        Ok(Some(body)) => Ok(Some((kind, body))),
        Ok(None) => Ok(None),
        Err(error) => Err(error),
    }
}

/// The body behind a length, the length counting itself. Where `kind` is
/// `None` this is the startup and a closed connection is `None`. `reader` is
/// all that the peer sent before it closed.
///
/// # Errors
/// A message that breaks off, a length under four or over [`MAX_MESSAGE`].
pub fn read_body(reader: &mut &[u8], kind: Option<u8>) -> (message: Result<
    Option<Vec<u8>>,
    TransportError,
>)
    ensures
        final(reader)@ == body_read(old(reader)@, kind is None).1,
        match body_read(old(reader)@, kind is None).0 {
            Ok(Some(body)) => message matches Ok(Some(b)) && b@ == body,
            Ok(None) => message matches Ok(None),
            Err(fault) => message matches Err(e) && e@ == fault,
        },
{
    if kind.is_none() && reader.len() == 0 {
        return Ok(None);
    }
    if reader.len() < 4 {
        *reader = slice_subrange(*reader, reader.len(), reader.len());
        return Err(breaks_off("reading a message length"));
    }
    let field = slice_subrange(*reader, 0, 4);
    *reader = slice_subrange(*reader, 4, reader.len());
    let length: usize = match body_length(field) {
        Ok(length) => length,
        Err(error) => return Err(error),
    };
    if reader.len() < length {
        *reader = slice_subrange(*reader, reader.len(), reader.len());
        return Err(breaks_off("reading a message body"));
    }
    let mut body: Vec<u8> = Vec::new();
    body.extend_from_slice(slice_subrange(*reader, 0, length));
    *reader = slice_subrange(*reader, length, reader.len());
    Ok(Some(body))
}

/// The protocol's own fields, read off the byte cursor. Integers are the
/// cursor's, big-endian (`i32_be`).
pub trait Postgres: View<V = Seq<u8>> + Sized {
    /// The next i16 count, negative read as zero.
    ///
    /// # Errors
    /// Fewer than two bytes remain.
    fn count(&mut self) -> (count: Result<usize, TransportError>)
        ensures
            match take_count(old(self)@) {
                Ok((taken, rest)) => count matches Ok(c) && c == taken && final(self)@ == rest,
                Err(fault) => count matches Err(e) && e@ == fault && final(self)@ == old(self)@,
            },
    ;

    /// The next NUL-terminated string, lossily UTF-8.
    ///
    /// # Errors
    /// No NUL before the end.
    fn cstring(&mut self) -> (text: Result<String, TransportError>)
        ensures
            match take_cstring(old(self)@) {
                Ok((taken, rest)) => text matches Ok(t) && t@ == taken && final(self)@ == rest,
                Err(fault) => text matches Err(e) && e@ == fault && final(self)@ == old(self)@,
            },
    ;
}

impl<'a> Postgres for Cursor<'a> {
    fn count(&mut self) -> (count: Result<usize, TransportError>) {
        match self.i16_be() {
            Ok(count) => Ok(if count < 0 { 0 } else { count as usize }),
            Err(error) => Err(error),
        }
    }

    fn cstring(&mut self) -> (text: Result<String, TransportError>) {
        match self.take_until(0) {
            Ok(bytes) => Ok(lossy(bytes)),
            Err(error) => Err(error),
        }
    }
}

/// The protocol's own fields, written beside the byte writer.
pub trait PostgresWrite: View<V = Seq<u8>> + Sized {
    /// `text` followed by the NUL that ends a wire string.
    fn cstring(&mut self, text: &str) -> (out: &mut Self)
        ensures
            out@ == old(self)@ + cstring_bytes(text@),
            *final(self) == *final(out),
    ;

    /// `count` as the wire's i16, saturating.
    fn count(&mut self, count: usize) -> (out: &mut Self)
        ensures
            out@ == old(self)@ + count_bytes(count as nat),
            *final(self) == *final(out),
    ;

    /// `length` as the wire's i32, saturating.
    fn length(&mut self, length: usize) -> (out: &mut Self)
        ensures
            out@ == old(self)@ + length_bytes(length as nat),
            *final(self) == *final(out),
    ;
}

impl PostgresWrite for Vec<u8> {
    fn cstring(&mut self, text: &str) -> (out: &mut Self) {
        self.bytes(text.as_bytes()).byte(0)
    }

    fn count(&mut self, count: usize) -> (out: &mut Self) {
        self.i16_be(if count <= i16::MAX as usize { count as i16 } else { i16::MAX })
    }

    fn length(&mut self, length: usize) -> (out: &mut Self) {
        self.i32_be(if length <= i32::MAX as usize { length as i32 } else { i32::MAX })
    }
}

/// A 16-bit integer reads back as what was written.
pub proof fn lemma_i16_reads_back(value: int, rest: Seq<u8>)
    requires
        i16::MIN <= value <= i16::MAX,
    ensures
        take_i16(i16_bytes(value) + rest) == Ok::<_, Fault>((value, rest)),
{
    let bytes = i16_bytes(value) + rest;
    assert(bytes.take(2) == i16_bytes(value));
    assert(bytes.skip(2) == rest);
}

/// A 32-bit integer reads back as what was written.
pub proof fn lemma_i32_reads_back(value: int, rest: Seq<u8>)
    requires
        i32::MIN <= value <= i32::MAX,
    ensures
        take_i32(i32_bytes(value) + rest) == Ok::<_, Fault>((value, rest)),
{
    let bytes = i32_bytes(value) + rest;
    assert(bytes.take(4) == i32_bytes(value));
    assert(bytes.skip(4) == rest);
}

/// A text without a NUL reads back off its wire string, whatever follows.
pub proof fn lemma_cstring_reads_back(text: Seq<char>, rest: Seq<u8>)
    requires
        !text.contains('\0'),
    ensures
        take_cstring(cstring_bytes(text) + rest) == Ok::<_, Fault>((text, rest)),
{
    let utf8 = encode_utf8(text);
    let bytes = cstring_bytes(text) + rest;
    lemma_nul_bytes(text);
    encode_utf8_valid_utf8(text);
    encode_utf8_decode_utf8(text);
    assert(bytes[utf8.len() as int] == 0);
    bytes.index_of_first_ensures(0);
    let at = bytes.index_of_first(0)->0;
    assert(at == utf8.len()) by {
        if at < utf8.len() {
            assert(utf8[at] == 0);
        }
    }
    assert(bytes.take(at) == utf8);
    assert(bytes.skip(at + 1) == rest);
}

/// A typed message that is not too long reads back whole, and no byte of
/// what follows it is read.
pub proof fn law_frame_reads_back(kind: u8, body: Seq<u8>, rest: Seq<u8>)
    requires
        body.len() + 4 <= MAX_MESSAGE,
    ensures
        typed_read(framed(Some(kind), body) + rest) == (
            Ok::<Option<(u8, Seq<u8>)>, Fault>(Some((kind, body))),
            rest,
        ),
{
    let bytes = framed(Some(kind), body) + rest;
    let behind = bytes.skip(1);
    assert(behind == framed(None, body) + rest);
    law_opening_reads_back(body, rest);
    assert(behind.len() >= 4);
}

/// An opening message that is not too long reads back whole, and no byte of
/// what follows it is read.
pub proof fn law_opening_reads_back(body: Seq<u8>, rest: Seq<u8>)
    requires
        body.len() + 4 <= MAX_MESSAGE,
    ensures
        body_read(framed(None, body) + rest, true) == (
            Ok::<Option<Seq<u8>>, Fault>(Some(body)),
            rest,
        ),
{
    let behind = body + rest;
    lemma_length_reads_back(body, rest);
    assert(behind.take(body.len() as int) == body);
    assert(behind.skip(body.len() as int) == rest);
}

/// The length of a message that is not too long reads back.
proof fn lemma_length_reads_back(body: Seq<u8>, rest: Seq<u8>)
    requires
        body.len() + 4 <= MAX_MESSAGE,
    ensures
        ({
            let bytes = framed(None, body) + rest;
            &&& bytes.len() >= 4
            &&& body_length_of(bytes.take(4)) == Ok::<nat, Fault>(body.len())
            &&& bytes.skip(4) == body + rest
        }),
{
    let bytes = framed(None, body) + rest;
    let length = (body.len() + 4) as int;
    assert(bytes == i32_bytes(length) + (body + rest));
    lemma_i32_reads_back(length, body + rest);
    assert(take_i32(bytes) == Ok::<_, Fault>((i32_of(bytes.take(4)), bytes.skip(4))));
}

/// The fault of a message with a body of `length` bytes that is cut off after
/// `came` bytes: it breaks off in its length, or in its body once the head
/// has come, unless the head shows that it is too long to be read at all.
pub open spec fn cut_off(length: nat, came: nat, typed: bool) -> Fault {
    if came < head_length(typed) {
        broken_off("reading a message length"@)
    } else if length + 4 > MAX_MESSAGE {
        permanent("a message over what Xmip will read"@)
    } else {
        broken_off("reading a message body"@)
    }
}

/// A message that is cut off anywhere after its first byte is refused,
/// however long it is, and not taken for a peer that closed nor for a shorter
/// message.
pub proof fn law_a_cut_off_message_is_refused(kind: u8, body: Seq<u8>, came: nat)
    requires
        came > 0,
    ensures
        came < framed(Some(kind), body).len() ==> typed_read(
            framed(Some(kind), body).take(came as int),
        ).0 == Err::<Option<(u8, Seq<u8>)>, Fault>(cut_off(body.len(), came, true)),
        came < framed(None, body).len() ==> body_read(
            framed(None, body).take(came as int),
            true,
        ).0 == Err::<Option<Seq<u8>>, Fault>(cut_off(body.len(), came, false)),
{
    let opening = framed(None, body);
    if came < opening.len() {
        lemma_cut_off_body(body, came, true);
    }
    if came < framed(Some(kind), body).len() {
        let cut = framed(Some(kind), body).take(came as int);
        assert(cut.skip(1) == opening.take(came - 1));
        lemma_cut_off_body(body, (came - 1) as nat, false);
    }
}

/// A length and the body behind it that are cut off are refused.
proof fn lemma_cut_off_body(body: Seq<u8>, came: nat, opening: bool)
    requires
        came < framed(None, body).len(),
        opening ==> came > 0,
    ensures
        body_read(framed(None, body).take(came as int), opening).0 == Err::<
            Option<Seq<u8>>,
            Fault,
        >(cut_off(body.len(), came, false)),
{
    let length: int = if body.len() + 4 <= i32::MAX {
        (body.len() + 4) as int
    } else {
        i32::MAX as int
    };
    let cut = framed(None, body).take(came as int);
    if came >= 4 {
        let behind = body.take(came - 4);
        assert(cut == i32_bytes(length) + behind);
        lemma_i32_reads_back(length, behind);
        assert(take_i32(cut) == Ok::<_, Fault>((i32_of(cut.take(4)), cut.skip(4))));
        assert(i32_of(cut.take(4)) == length);
    }
}

/// Whether reading off these bytes gave a message and left none of them.
pub open spec fn reads_whole(bytes: Seq<u8>, typed: bool) -> bool {
    if typed {
        typed_read(bytes) matches (Ok(Some(_)), rest) && rest.len() == 0
    } else {
        body_read(bytes, true) matches (Ok(Some(_)), rest) && rest.len() == 0
    }
}

/// What reading off these bytes fails with.
pub open spec fn read_fault(bytes: Seq<u8>, typed: bool) -> Option<Fault> {
    if typed {
        match typed_read(bytes).0 {
            Err(fault) => Some(fault),
            _ => None,
        }
    } else {
        match body_read(bytes, true).0 {
            Err(fault) => Some(fault),
            _ => None,
        }
    }
}

/// Waiting for as much as is wanted, as often as something is, brings in one
/// message and no byte more: once the head has come, what is wanted then is
/// all that is wanted, and the message reads whole; and a head that is
/// refused is what the message would have been refused for.
pub proof fn law_wanted_is_one_message(bytes: Seq<u8>, more: Seq<u8>, typed: bool)
    ensures
        wanted_after(bytes, typed) matches Err(fault) ==> read_fault(bytes, typed) == Some(fault),
        bytes.len() < head_length(typed) ==> (wanted_after(bytes, typed) matches Ok(n) && 0 < n
            && bytes.len() + n <= head_length(typed)),
        wanted_after(bytes, typed) == Ok::<nat, Fault>(more.len()) && head_length(typed)
            <= bytes.len() && more.len() > 0 ==> {
            &&& wanted_after(bytes + more, typed) == Ok::<nat, Fault>(0)
            &&& reads_whole(bytes + more, typed)
        },
        wanted_after(bytes, typed) == Ok::<nat, Fault>(0) && bytes.len() == head_length(typed)
            ==> reads_whole(bytes, typed),
{
    let head = head_length(typed) as int;
    let all = bytes + more;
    if bytes.len() >= head {
        let field = bytes.subrange(head - 4, head);
        assert(all.subrange(head - 4, head) == field);
        if typed {
            assert(bytes.skip(1).take(4) == field);
            assert(all.skip(1).take(4) == field);
        } else {
            assert(bytes.take(4) == field);
            assert(all.take(4) == field);
        }
    }
}

/// A message is its type byte where it has one, the length of everything
/// behind that byte with the byte that counts most first, and the body.
pub proof fn law_a_frame_is_type_length_and_body(kind: u8, body: Seq<u8>)
    requires
        body.len() + 4 < 0x8000_0000,
    ensures
        ({
            let typed = framed(Some(kind), body);
            &&& typed.len() == body.len() + 5
            &&& typed[0] == kind
            &&& typed[1] * 0x100_0000 + typed[2] * 0x1_0000 + typed[3] * 0x100 + typed[4]
                == body.len() + 4
            &&& typed.skip(5) == body
            &&& framed(None, body) == typed.skip(1)
        }),
{
    let typed = framed(Some(kind), body);
    let length = i32_bytes((body.len() + 4) as int);
    law_integers_are_written_high_first((body.len() + 4) as int);
    assert(typed[1] == length[0] && typed[2] == length[1] && typed[3] == length[2] && typed[4]
        == length[3]);
    assert(typed.skip(5) == body);
    assert(framed(None, body) == typed.skip(1));
}

/// The length decides what is read: under four, or negative, it is no length;
/// over 64 MiB it is not read; otherwise it counts itself and the body, which
/// is read whole and with nothing of what follows, or breaks off.
pub proof fn law_the_length_decides(kind: u8, field: Seq<u8>, behind: Seq<u8>)
    requires
        field.len() == 4,
    ensures
        ({
            let length = field[0] * 0x100_0000 + field[1] * 0x1_0000 + field[2] * 0x100 + field[3];
            let (typed, typed_rest) = typed_read(seq![kind] + field + behind);
            let (opening, opening_rest) = body_read(field + behind, true);
            let no_length = Fault { message: "a message length under four"@, retryable: false };
            let too_long = Fault {
                message: "a message over what Xmip will read"@,
                retryable: false,
            };
            let broken = Fault {
                message: "reading a message body"@ + ": the message breaks off"@,
                retryable: true,
            };
            &&& length < 4 || 0x8000_0000 <= length ==> {
                &&& typed == Err::<Option<(u8, Seq<u8>)>, Fault>(no_length)
                &&& opening == Err::<Option<Seq<u8>>, Fault>(no_length)
            }
            &&& 0x400_0000 < length < 0x8000_0000 ==> {
                &&& typed == Err::<Option<(u8, Seq<u8>)>, Fault>(too_long)
                &&& opening == Err::<Option<Seq<u8>>, Fault>(too_long)
            }
            &&& 4 <= length <= 0x400_0000 && behind.len() < length - 4 ==> {
                &&& typed == Err::<Option<(u8, Seq<u8>)>, Fault>(broken)
                &&& opening == Err::<Option<Seq<u8>>, Fault>(broken)
            }
            &&& 4 <= length <= 0x400_0000 && behind.len() >= length - 4 ==> {
                &&& typed == Ok::<Option<(u8, Seq<u8>)>, Fault>(
                    Some((kind, behind.take(length - 4))),
                )
                &&& opening == Ok::<Option<Seq<u8>>, Fault>(Some(behind.take(length - 4)))
                &&& typed_rest == behind.skip(length - 4)
                &&& opening_rest == behind.skip(length - 4)
            }
        }),
{
    let bytes = field + behind;
    assert((seq![kind] + field + behind).skip(1) == bytes);
    assert((seq![kind] + field + behind)[0] == kind);
    assert(bytes.take(4) == field);
    assert(bytes.skip(4) == behind);
}

/// Nothing at all is a peer that closed; less than the type byte and a length
/// is a message that breaks off.
pub proof fn law_what_ends_before_its_length(bytes: Seq<u8>)
    ensures
        ({
            let broken = Fault {
                message: "reading a message length"@ + ": the message breaks off"@,
                retryable: true,
            };
            &&& bytes.len() == 0 ==> {
                &&& typed_read(bytes).0 == Ok::<Option<(u8, Seq<u8>)>, Fault>(None)
                &&& body_read(bytes, true).0 == Ok::<Option<Seq<u8>>, Fault>(None)
            }
            &&& 0 < bytes.len() < 5 ==> typed_read(bytes).0 == Err::<
                Option<(u8, Seq<u8>)>,
                Fault,
            >(broken)
            &&& 0 < bytes.len() < 4 ==> body_read(bytes, true).0 == Err::<
                Option<Seq<u8>>,
                Fault,
            >(broken)
        }),
{
}

/// Once the head of a message has come, what is wanted is as much as its
/// length says is still to come, and never a byte of the next message.
pub proof fn law_wanted_goes_by_the_length(kind: u8, field: Seq<u8>, behind: Seq<u8>)
    requires
        field.len() == 4,
    ensures
        ({
            let length = field[0] * 0x100_0000 + field[1] * 0x1_0000 + field[2] * 0x100 + field[3];
            4 <= length <= 0x400_0000 ==> {
                let more = if behind.len() < length - 4 {
                    (length - 4 - behind.len()) as nat
                } else {
                    0
                };
                &&& wanted_after(seq![kind] + field + behind, true) == Ok::<_, Fault>(more)
                &&& wanted_after(field + behind, false) == Ok::<_, Fault>(more)
            }
        }),
{
    assert((seq![kind] + field + behind).subrange(1, 5) == field);
    assert((field + behind).subrange(0, 4) == field);
}

/// The text that bytes read as: what they encode where they are UTF-8, and
/// mended where they are not.
pub open spec fn text_read(bytes: Seq<u8>) -> Seq<char> {
    if valid_utf8(bytes) {
        decode_utf8(bytes)
    } else {
        utf8_mended(bytes)
    }
}

/// A wire string is what stands before its NUL, whether that is UTF-8 or not.
/// Without a NUL it is refused.
pub proof fn law_a_wire_string_ends_at_its_nul(text: Seq<u8>, rest: Seq<u8>)
    requires
        !text.contains(0),
    ensures
        take_cstring(text + seq![0u8] + rest) == Ok::<_, Fault>((text_read(text), rest)),
        take_cstring(text) is Err,
{
    law_a_delimiter_ends_its_field(text, 0, rest);
}

/// A text is written as its UTF-8 and a NUL, and where it has none itself it
/// is read back.
pub proof fn law_a_text_is_its_utf8_and_a_nul(text: Seq<char>, rest: Seq<u8>)
    ensures
        cstring_bytes(text) == encode_utf8(text) + seq![0u8],
        !text.contains('\0') ==> take_cstring(encode_utf8(text) + seq![0u8] + rest) == Ok::<
            _,
            Fault,
        >((text, rest)),
{
    assert(cstring_bytes(text) == encode_utf8(text) + seq![0u8]);
    if !text.contains('\0') {
        lemma_cstring_reads_back(text, rest);
    }
}

/// A count is the number that two bytes stand for, or none where that is
/// negative; as many as fit are written as they are, and more as the most.
pub proof fn law_counts_and_lengths(field: Seq<u8>, rest: Seq<u8>, number: nat)
    requires
        field.len() == 2,
    ensures
        ({
            let word = field[0] * 0x100 + field[1];
            take_count(field + rest) == Ok::<_, Fault>(
                (if word < 0x8000 { word as nat } else { 0 }, rest),
            )
        }),
        ({
            let bytes = count_bytes(number);
            &&& bytes.len() == 2
            &&& bytes[0] * 0x100 + bytes[1] == if number < 0x8000 { number as int } else { 0x7fff }
        }),
        ({
            let bytes = length_bytes(number);
            &&& bytes.len() == 4
            &&& bytes[0] * 0x100_0000 + bytes[1] * 0x1_0000 + bytes[2] * 0x100 + bytes[3]
                == if number < 0x8000_0000 {
                number as int
            } else {
                0x7fff_ffff
            }
        }),
{
    law_fields_come_off_the_front(field, rest);
    law_integers_are_written_high_first(number as int);
    law_integers_are_written_high_first(0x7fff);
    law_integers_are_written_high_first(0x7fff_ffff);
}

} // verus!
