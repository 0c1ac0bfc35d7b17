//! Bytes written one field after another, integers big-endian.

use vstd::prelude::*;

verus! {

/// `value` in two bytes, big-endian two's complement.
pub open spec fn i16_bytes(value: int) -> Seq<u8> {
    let word = if value < 0 { value + 0x1_0000 } else { value };
    seq![(word / 0x100) as u8, (word % 0x100) as u8]
}

/// `value` in four bytes, big-endian two's complement.
pub open spec fn i32_bytes(value: int) -> Seq<u8> {
    let word = if value < 0 { value + 0x1_0000_0000 } else { value };
    seq![
        (word / 0x100_0000) as u8,
        (word / 0x1_0000 % 0x100) as u8,
        (word / 0x100 % 0x100) as u8,
        (word % 0x100) as u8,
    ]
}

/// What is written onto a growing run of bytes. Each call hands the run
/// back, so that a message is written as one chain of fields.
pub trait ByteWriter: View<V = Seq<u8>> + Sized {
    /// One byte.
    fn byte(&mut self, byte: u8) -> (out: &mut Self)
        ensures
            out@ == old(self)@.push(byte),
            *final(self) == *final(out),
    ;

    /// The bytes as they are.
    fn bytes(&mut self, bytes: &[u8]) -> (out: &mut Self)
        ensures
            out@ == old(self)@ + bytes@,
            *final(self) == *final(out),
    ;

    /// A 16-bit integer, big-endian.
    fn i16_be(&mut self, value: i16) -> (out: &mut Self)
        ensures
            out@ == old(self)@ + i16_bytes(value as int),
            *final(self) == *final(out),
    ;

    /// A 32-bit integer, big-endian.
    fn i32_be(&mut self, value: i32) -> (out: &mut Self)
        ensures
            out@ == old(self)@ + i32_bytes(value as int),
            *final(self) == *final(out),
    ;
}

impl ByteWriter for Vec<u8> {
    fn byte(&mut self, byte: u8) -> (out: &mut Self) {
        self.push(byte);
        self
    }

    fn bytes(&mut self, bytes: &[u8]) -> (out: &mut Self) {
        self.extend_from_slice(bytes);
        self
    }

    fn i16_be(&mut self, value: i16) -> (out: &mut Self) {
        let word: i32 = if value < 0 { value as i32 + 0x1_0000 } else { value as i32 };
        self.push((word / 0x100) as u8);
        self.push((word % 0x100) as u8);
        self
    }

    fn i32_be(&mut self, value: i32) -> (out: &mut Self) {
        let word: i64 = if value < 0 { value as i64 + 0x1_0000_0000 } else { value as i64 };
        self.push((word / 0x100_0000) as u8);
        self.push((word / 0x1_0000 % 0x100) as u8);
        self.push((word / 0x100 % 0x100) as u8);
        self.push((word % 0x100) as u8);
        self
    }
}

/// Integers are written with the byte that counts most first, a negative one
/// as what it is short of one more than fits.
pub proof fn law_integers_are_written_high_first(value: int)
    ensures
        -0x8000 <= value < 0x8000 ==> {
            let bytes = i16_bytes(value);
            &&& bytes.len() == 2
            &&& bytes[0] * 0x100 + bytes[1] == if value < 0 { value + 0x1_0000 } else { value }
        },
        -0x8000_0000 <= value < 0x8000_0000 ==> {
            let bytes = i32_bytes(value);
            &&& bytes.len() == 4
            &&& bytes[0] * 0x100_0000 + bytes[1] * 0x1_0000 + bytes[2] * 0x100 + bytes[3] == if value
                < 0 {
                value + 0x1_0000_0000
            } else {
                value
            }
        },
{
}

} // verus!
