//! A position in the body of a message, and the fields that are read off
//! from there on. Integers are big-endian.

use vstd::prelude::*;
use vstd::slice::slice_subrange;

use crate::error::{permanent, protocol_error, Fault, TransportError};

verus! {

/// The fault of a field that is longer than what remains.
pub open spec fn runs_past() -> Fault {
    permanent("a field runs past the end of its message"@)
}

/// The fault of a field whose end is nowhere in what remains.
pub open spec fn unended() -> Fault {
    permanent("a field runs past the end of its message without its delimiter"@)
}

/// The number that two bytes stand for, big-endian two's complement.
pub open spec fn i16_of(bytes: Seq<u8>) -> int {
    let word = bytes[0] * 0x100 + bytes[1];
    if word < 0x8000 {
        word
    } else {
        word - 0x1_0000
    }
}

/// The number that four bytes stand for, big-endian two's complement.
pub open spec fn i32_of(bytes: Seq<u8>) -> int {
    let word = bytes[0] * 0x100_0000 + bytes[1] * 0x1_0000 + bytes[2] * 0x100 + bytes[3];
    if word < 0x8000_0000 {
        word
    } else {
        word - 0x1_0000_0000
    }
}

/// The first `count` bytes and what follows them.
pub open spec fn take(bytes: Seq<u8>, count: nat) -> Result<(Seq<u8>, Seq<u8>), Fault> {
    if count <= bytes.len() {
        Ok((bytes.take(count as int), bytes.skip(count as int)))
    } else {
        Err(runs_past())
    }
}

/// The first byte and what follows it.
pub open spec fn take_byte(bytes: Seq<u8>) -> Result<(u8, Seq<u8>), Fault> {
    match take(bytes, 1) {
        Ok((field, rest)) => Ok((field[0], rest)),
        Err(fault) => Err(fault),
    }
}

/// The 16-bit integer that comes first and what follows it.
pub open spec fn take_i16(bytes: Seq<u8>) -> Result<(int, Seq<u8>), Fault> {
    match take(bytes, 2) {
        Ok((field, rest)) => Ok((i16_of(field), rest)),
        Err(fault) => Err(fault),
    }
}

/// The 32-bit integer that comes first and what follows it.
pub open spec fn take_i32(bytes: Seq<u8>) -> Result<(int, Seq<u8>), Fault> {
    match take(bytes, 4) {
        Ok((field, rest)) => Ok((i32_of(field), rest)),
        Err(fault) => Err(fault),
    }
}

/// The bytes before the first `end`, and what follows that `end`.
pub open spec fn take_until(bytes: Seq<u8>, end: u8) -> Result<(Seq<u8>, Seq<u8>), Fault> {
    if bytes.contains(end) {
        let at = bytes.index_of_first(end)->0;
        Ok((bytes.take(at), bytes.skip(at + 1)))
    } else {
        Err(unended())
    }
}

/// A position in a run of bytes. What a read fails on stays unread.
pub struct Cursor<'a> {
    bytes: &'a [u8],
    at: usize,
}

impl<'a> View for Cursor<'a> {
    type V = Seq<u8>;

    /// The bytes that remain to be read.
    closed spec fn view(&self) -> Seq<u8> {
        self.bytes@.skip(self.at as int)
    }
}

impl<'a> Cursor<'a> {
    #[verifier::type_invariant]
    closed spec fn inside(&self) -> bool {
        self.at <= self.bytes@.len()
    }

    /// At the start of `bytes`.
    pub fn new(bytes: &'a [u8]) -> (cursor: Self)
        ensures
            cursor@ == bytes@,
    {
        assert(bytes@.skip(0) == bytes@);
        Cursor { bytes, at: 0 }
    }

    /// The next `count` bytes.
    pub fn take(&mut self, count: usize) -> (field: Result<&'a [u8], TransportError>)
        ensures
            match take(old(self)@, count as nat) {
                Ok((taken, rest)) => field matches Ok(f) && f@ == taken && final(self)@ == rest,
                Err(fault) => field matches Err(e) && e@ == fault && final(self)@ == old(self)@,
            },
    {
        proof {
            use_type_invariant(&*self);
        }
        if count > self.bytes.len() - self.at {
            return Err(protocol_error("a field runs past the end of its message"));
        }
        let from: usize = self.at;
        self.at = from + count;
        assert(self.bytes@.subrange(from as int, from + count) == old(self)@.take(count as int));
        assert(self@ == old(self)@.skip(count as int));
        Ok(slice_subrange(self.bytes, from, from + count))
    }

    /// Read past the next `count` bytes.
    pub fn skip(&mut self, count: usize) -> (past: Result<(), TransportError>)
        ensures
            match take(old(self)@, count as nat) {
                Ok((_, rest)) => past is Ok && final(self)@ == rest,
                Err(fault) => past matches Err(e) && e@ == fault && final(self)@ == old(self)@,
            },
    {
        match self.take(count) {
            Ok(_) => Ok(()),
            Err(error) => Err(error),
        }
    }

    /// The next byte.
    pub fn byte(&mut self) -> (byte: Result<u8, TransportError>)
        ensures
            match take_byte(old(self)@) {
                Ok((taken, rest)) => byte matches Ok(b) && b == taken && final(self)@ == rest,
                Err(fault) => byte matches Err(e) && e@ == fault && final(self)@ == old(self)@,
            },
    {
        match self.take(1) {
            Ok(field) => Ok(field[0]),
            Err(error) => Err(error),
        }
    }

    /// The next 16-bit integer.
    pub fn i16_be(&mut self) -> (value: Result<i16, TransportError>)
        ensures
            match take_i16(old(self)@) {
                Ok((taken, rest)) => value matches Ok(v) && v == taken && final(self)@ == rest,
                Err(fault) => value matches Err(e) && e@ == fault && final(self)@ == old(self)@,
            },
    {
        match self.take(2) {
            Ok(field) => {
                let word: i32 = field[0] as i32 * 0x100 + field[1] as i32;
                Ok(if word < 0x8000 { word as i16 } else { (word - 0x1_0000) as i16 })
            },
            Err(error) => Err(error),
        }
    }

    /// The next 32-bit integer.
    pub fn i32_be(&mut self) -> (value: Result<i32, TransportError>)
        ensures
            match take_i32(old(self)@) {
                Ok((taken, rest)) => value matches Ok(v) && v == taken && final(self)@ == rest,
                Err(fault) => value matches Err(e) && e@ == fault && final(self)@ == old(self)@,
            },
    {
        match self.take(4) {
            Ok(field) => Ok(i32_from(field)),
            Err(error) => Err(error),
        }
    }

    /// The bytes before the next `end`, which is read past.
    pub fn take_until(&mut self, end: u8) -> (field: Result<&'a [u8], TransportError>)
        ensures
            match take_until(old(self)@, end) {
                Ok((taken, rest)) => field matches Ok(f) && f@ == taken && final(self)@ == rest,
                Err(fault) => field matches Err(e) && e@ == fault && final(self)@ == old(self)@,
            },
    {
        proof {
            use_type_invariant(&*self);
        }
        let from: usize = self.at;
        let mut to: usize = from;
        while to < self.bytes.len() && self.bytes[to] != end
            invariant
                *self == *old(self),
                from == self.at,
                from <= to <= self.bytes@.len(),
                forall|i: int| from <= i < to ==> self.bytes@[i] != end,
            decreases self.bytes@.len() - to,
        {
            to = to + 1;
        }
        if to == self.bytes.len() {
            assert(!old(self)@.contains(end));
            return Err(
                protocol_error(
                    "a field runs past the end of its message without its delimiter",
                ),
            );
        }
        self.at = to + 1;
        proof {
            let rest = old(self)@;
            assert(rest[to - from] == end);
            rest.index_of_first_ensures(end);
            assert(rest.index_of_first(end) == Some(to - from));
            assert(self.bytes@.subrange(from as int, to as int) == rest.take(to - from));
            assert(self@ == rest.skip(to - from + 1));
        }
        Ok(slice_subrange(self.bytes, from, to))
    }
}

/// The number that four bytes stand for, big-endian.
pub fn i32_from(bytes: &[u8]) -> (value: i32)
    requires
        bytes@.len() == 4,
    ensures
        value == i32_of(bytes@),
{
    let word: i64 = bytes[0] as i64 * 0x100_0000 + bytes[1] as i64 * 0x1_0000 + bytes[2] as i64
        * 0x100 + bytes[3] as i64;
    if word < 0x8000_0000 {
        word as i32
    } else {
        (word - 0x1_0000_0000) as i32
    }
}

/// A field is the bytes that come first, as many as it has; what follows it
/// is left; and where there are fewer, it is refused.
pub proof fn law_fields_come_off_the_front(field: Seq<u8>, rest: Seq<u8>)
    ensures
        take(field + rest, field.len()) == Ok::<_, Fault>((field, rest)),
        field.len() == 1 ==> take_byte(field + rest) == Ok::<_, Fault>((field[0], rest)),
        field.len() == 2 ==> {
            let word = field[0] * 0x100 + field[1];
            take_i16(field + rest) == Ok::<_, Fault>(
                (if word < 0x8000 { word } else { word - 0x1_0000 }, rest),
            )
        },
        field.len() == 4 ==> {
            let word = field[0] * 0x100_0000 + field[1] * 0x1_0000 + field[2] * 0x100 + field[3];
            take_i32(field + rest) == Ok::<_, Fault>(
                (if word < 0x8000_0000 { word } else { word - 0x1_0000_0000 }, rest),
            )
        },
{
    assert((field + rest).take(field.len() as int) == field);
    assert((field + rest).skip(field.len() as int) == rest);
}

/// A field that is longer than what remains is refused for good, with words
/// that say so.
pub proof fn law_what_runs_past_is_refused(bytes: Seq<u8>, count: nat)
    requires
        bytes.len() < count,
    ensures
        ({
            let fault = Fault {
                message: "a field runs past the end of its message"@,
                retryable: false,
            };
            &&& take(bytes, count) == Err::<(Seq<u8>, Seq<u8>), Fault>(fault)
            &&& bytes.len() == 0 ==> take_byte(bytes) == Err::<(u8, Seq<u8>), Fault>(fault)
            &&& bytes.len() < 2 ==> take_i16(bytes) == Err::<(int, Seq<u8>), Fault>(fault)
            &&& bytes.len() < 4 ==> take_i32(bytes) == Err::<(int, Seq<u8>), Fault>(fault)
        }),
{
}

/// What is read up to a delimiter is what stands before the first of it, and
/// the delimiter itself is read past; without one it is refused for good.
pub proof fn law_a_delimiter_ends_its_field(field: Seq<u8>, end: u8, rest: Seq<u8>)
    requires
        !field.contains(end),
    ensures
        take_until(field + seq![end] + rest, end) == Ok::<_, Fault>((field, rest)),
        take_until(field, end) == Err::<(Seq<u8>, Seq<u8>), Fault>(
            Fault {
                message: "a field runs past the end of its message without its delimiter"@,
                retryable: false,
            },
        ),
{
    let bytes = field + seq![end] + rest;
    assert(bytes[field.len() as int] == end);
    bytes.index_of_first_ensures(end);
    let at = bytes.index_of_first(end)->0;
    assert(at == field.len()) by {
        if at < field.len() {
            assert(field[at] == end);
        }
    }
    assert(bytes.take(at) == field);
    assert(bytes.skip(at + 1) == rest);
}

} // verus!
