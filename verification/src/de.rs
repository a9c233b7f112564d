use vstd::prelude::*;
use vstd::slice::slice_subrange;

use crate::enc::{
    be128, be16, be32, be64, dec_bytes, dec_groups, enc_bool, enc_char, enc_i128, enc_i16, enc_i32,
    enc_i64, enc_i8, enc_u128, enc_u16, enc_u32, enc_u64, enc_u8, f32_key, f64_key, lemma_maybe_flip_len, lemma_maybe_flip_skip, maybe_flip,
    BytesDecode,
};
use crate::error::Error;
use crate::sink;

verus! {

broadcast use vstd::seq_lib::group_seq_properties;

/// A structure that deserializes memcomparable bytes back into values.
///
/// The deserializer holds a byte slice and a cursor; `logical()` is the part
/// of the input still to be read, with the order-reversal complement already
/// applied.
pub struct Deserializer<'a> {
    input: &'a [u8],
    pos: usize,
    flip: bool,
}

impl<'a> Deserializer<'a> {
    #[verifier::type_invariant]
    spec fn type_wf(self) -> bool {
        self.pos <= self.input@.len()
    }

    /// The whole input.
    pub closed spec fn all_bytes(self) -> Seq<u8> {
        self.input@
    }

    /// How many bytes have been consumed.
    pub closed spec fn consumed(self) -> int {
        self.pos as int
    }

    /// Whether descending order is in effect: every byte read is
    /// complemented.
    pub closed spec fn flipped(self) -> bool {
        self.flip
    }

    /// The raw bytes that remain to be read.
    pub open spec fn remaining_bytes(self) -> Seq<u8> {
        self.all_bytes().skip(self.consumed())
    }

    /// The remaining bytes as the decoder sees them: complemented when
    /// descending order is on.
    pub open spec fn logical(self) -> Seq<u8> {
        maybe_flip(self.remaining_bytes(), self.flipped())
    }

    /// Creates a deserializer reading from `input`.
    pub fn new(input: &'a [u8]) -> (r: Deserializer<'a>)
        ensures
            r.all_bytes() == input@,
            r.consumed() == 0,
            !r.flipped(),
    {
        Deserializer { input, pos: 0, flip: false }
    }

    /// Set whether data is deserialized in reverse order.
    ///
    /// If set, all bits are flipped when reading.
    pub fn set_reverse(&mut self, reverse: bool)
        ensures
            final(self).all_bytes() == old(self).all_bytes(),
            final(self).consumed() == old(self).consumed(),
            final(self).flipped() == reverse,
    {
        proof {
            use_type_invariant(&*self);
        }
        self.flip = reverse;
    }

    /// Unwrap the not-yet-consumed part of the input from the `Deserializer`.
    pub fn into_inner(self) -> (r: &'a [u8])
        ensures
            r@ == self.remaining_bytes(),
    {
        proof {
            use_type_invariant(&self);
        }
        slice_subrange(self.input, self.pos, self.input.len())
    }

    /// Check if the input still has remaining data.
    pub fn has_remaining(&self) -> (r: bool)
        ensures
            r == (self.remaining_bytes().len() > 0),
    {
        proof {
            use_type_invariant(&*self);
        }
        self.pos < self.input.len()
    }

    /// Return how many bytes remain to be read.
    pub fn remaining(&self) -> (r: usize)
        ensures
            r == self.remaining_bytes().len(),
    {
        proof {
            use_type_invariant(&*self);
        }
        self.input.len() - self.pos
    }

    /// Return the number of bytes consumed so far.
    pub fn position(&self) -> (r: usize)
        ensures
            r == self.consumed(),
    {
        self.pos
    }

    /// Advance the cursor by `cnt` bytes.
    pub fn advance(&mut self, cnt: usize)
        requires
            cnt <= old(self).remaining_bytes().len(),
        ensures
            final(self).all_bytes() == old(self).all_bytes(),
            final(self).flipped() == old(self).flipped(),
            final(self).consumed() == old(self).consumed() + cnt,
    {
        proof {
            use_type_invariant(&*self);
        }
        let len = self.input.len();
        self.pos = self.pos + cnt;
    }

    /// Read one logical byte, complemented when descending order is on.
    fn get_byte(&mut self) -> (b: u8)
        requires
            old(self).remaining_bytes().len() >= 1,
        ensures
            final(self).all_bytes() == old(self).all_bytes(),
            final(self).flipped() == old(self).flipped(),
            final(self).consumed() == old(self).consumed() + 1,
            b == old(self).logical()[0],
            final(self).remaining_bytes() == old(self).remaining_bytes().drop_first(),
            final(self).logical() == old(self).logical().drop_first(),
    {
        proof {
            use_type_invariant(&*self);
        }
        let raw = self.input[self.pos];
        self.pos = self.pos + 1;
        proof {
            assert(final(self).remaining_bytes() =~= old(self).remaining_bytes().drop_first());
            assert(final(self).logical() =~= old(self).logical().drop_first());
        }
        if self.flip {
            !raw
        } else {
            raw
        }
    }

    /// Read one byte directly from the input, bypassing the order-reversal
    /// flip.
    pub(crate) fn get_raw(&mut self) -> (b: u8)
        requires
            old(self).remaining_bytes().len() >= 1,
        ensures
            final(self).all_bytes() == old(self).all_bytes(),
            final(self).flipped() == old(self).flipped(),
            final(self).consumed() == old(self).consumed() + 1,
            b == old(self).remaining_bytes()[0],
            final(self).remaining_bytes() == old(self).remaining_bytes().drop_first(),
    {
        proof {
            use_type_invariant(&*self);
        }
        let raw = self.input[self.pos];
        self.pos = self.pos + 1;
        proof {
            assert(final(self).remaining_bytes() =~= old(self).remaining_bytes().drop_first());
        }
        raw
    }

    /// Decode a bool from one byte: 0x00 is `false`, 0x01 is `true`, anything
    /// else is an `InvalidBoolEncoding` error.
    pub fn deserialize_bool(&mut self) -> (r: Result<bool, Error>)
        requires
            old(self).remaining_bytes().len() >= 1,
        ensures
            final(self).all_bytes() == old(self).all_bytes(),
            final(self).flipped() == old(self).flipped(),
            final(self).consumed() == old(self).consumed() + 1,
            r matches Ok(v) ==> enc_bool(v) == old(self).logical().take(1),
            r matches Err(e) ==> e == Error::InvalidBoolEncoding(old(self).logical()[0])
                && old(self).logical()[0] != 0 && old(self).logical()[0] != 1,
    {
        let b = self.get_byte();
        proof {
            assert(old(self).logical().take(1) =~= seq![old(self).logical()[0]]);
        }
        match b {
            1 => Ok(true),
            0 => Ok(false),
            _ => Err(Error::InvalidBoolEncoding(b)),
        }
    }

    /// Decode a u8.
    pub fn deserialize_u8(&mut self) -> (r: Result<u8, Error>)
        requires
            old(self).remaining_bytes().len() >= 1,
        ensures
            final(self).all_bytes() == old(self).all_bytes(),
            final(self).flipped() == old(self).flipped(),
            final(self).consumed() == old(self).consumed() + 1,
            r matches Ok(v) && enc_u8(v) == old(self).logical().take(1),
    {
        let b = self.get_byte();
        proof {
            assert(old(self).logical().take(1) =~= seq![old(self).logical()[0]]);
        }
        Ok(b)
    }

    /// Decode a u16 from two big-endian bytes.
    pub fn deserialize_u16(&mut self) -> (r: Result<u16, Error>)
        requires
            old(self).remaining_bytes().len() >= 2,
        ensures
            final(self).all_bytes() == old(self).all_bytes(),
            final(self).flipped() == old(self).flipped(),
            final(self).consumed() == old(self).consumed() + 2,
            r matches Ok(v) && enc_u16(v) == old(self).logical().take(2),
    {
        let b0 = self.get_byte();
        let b1 = self.get_byte();
        let v = ((b0 as u16) << 8) | (b1 as u16);
        proof {
            assert(((((b0 as u16) << 8) | (b1 as u16)) >> 8) & 0xff == b0 && (((b0 as u16) << 8) | (
            b1 as u16)) & 0xff == b1) by (bit_vector);
            assert(be16(v) =~= old(self).logical().take(2));
        }
        Ok(v)
    }

    /// Decode a u32 from four big-endian bytes.
    pub fn deserialize_u32(&mut self) -> (r: Result<u32, Error>)
        requires
            old(self).remaining_bytes().len() >= 4,
        ensures
            final(self).all_bytes() == old(self).all_bytes(),
            final(self).flipped() == old(self).flipped(),
            final(self).consumed() == old(self).consumed() + 4,
            r matches Ok(v) && enc_u32(v) == old(self).logical().take(4),
    {
        let b0 = self.get_byte();
        let b1 = self.get_byte();
        let b2 = self.get_byte();
        let b3 = self.get_byte();
        let v = ((b0 as u32) << 24) | ((b1 as u32) << 16) | ((b2 as u32) << 8) | (b3 as u32);
        proof {
            let x = ((b0 as u32) << 24) | ((b1 as u32) << 16) | ((b2 as u32) << 8) | (b3 as u32);
            assert((x >> 24) & 0xff == b0 && (x >> 16) & 0xff == b1 && (x >> 8) & 0xff == b2 && x
                & 0xff == b3) by (bit_vector)
                requires
                    x == ((b0 as u32) << 24) | ((b1 as u32) << 16) | ((b2 as u32) << 8) | (
                    b3 as u32),
            ;
            assert(be32(v) =~= old(self).logical().take(4));
        }
        Ok(v)
    }

    /// Decode a u64 from eight big-endian bytes.
    pub fn deserialize_u64(&mut self) -> (r: Result<u64, Error>)
        requires
            old(self).remaining_bytes().len() >= 8,
        ensures
            final(self).all_bytes() == old(self).all_bytes(),
            final(self).flipped() == old(self).flipped(),
            final(self).consumed() == old(self).consumed() + 8,
            r matches Ok(v) && enc_u64(v) == old(self).logical().take(8),
    {
        let b0 = self.get_byte();
        let b1 = self.get_byte();
        let b2 = self.get_byte();
        let b3 = self.get_byte();
        let b4 = self.get_byte();
        let b5 = self.get_byte();
        let b6 = self.get_byte();
        let b7 = self.get_byte();
        let v = ((b0 as u64) << 56) | ((b1 as u64) << 48) | ((b2 as u64) << 40) | ((b3 as u64)
            << 32) | ((b4 as u64) << 24) | ((b5 as u64) << 16) | ((b6 as u64) << 8) | (b7 as u64);
        proof {
            let x = v;
            assert((x >> 56) & 0xff == b0 && (x >> 48) & 0xff == b1 && (x >> 40) & 0xff == b2 && (x
                >> 32) & 0xff == b3 && (x >> 24) & 0xff == b4 && (x >> 16) & 0xff == b5 && (x >> 8)
                & 0xff == b6 && x & 0xff == b7) by (bit_vector)
                requires
                    x == ((b0 as u64) << 56) | ((b1 as u64) << 48) | ((b2 as u64) << 40) | ((
                    b3 as u64) << 32) | ((b4 as u64) << 24) | ((b5 as u64) << 16) | ((b6 as u64)
                        << 8) | (b7 as u64),
            ;
            assert(be64(v) =~= old(self).logical().take(8));
        }
        Ok(v)
    }

    /// Decode a u128 from sixteen big-endian bytes.
    #[verifier::rlimit(60)]
    pub fn deserialize_u128(&mut self) -> (r: Result<u128, Error>)
        requires
            old(self).remaining_bytes().len() >= 16,
        ensures
            final(self).all_bytes() == old(self).all_bytes(),
            final(self).flipped() == old(self).flipped(),
            final(self).consumed() == old(self).consumed() + 16,
            r matches Ok(v) && enc_u128(v) == old(self).logical().take(16),
    {
        let b0 = self.get_byte();
        let b1 = self.get_byte();
        let b2 = self.get_byte();
        let b3 = self.get_byte();
        let b4 = self.get_byte();
        let b5 = self.get_byte();
        let b6 = self.get_byte();
        let b7 = self.get_byte();
        let b8 = self.get_byte();
        let b9 = self.get_byte();
        let b10 = self.get_byte();
        let b11 = self.get_byte();
        let b12 = self.get_byte();
        let b13 = self.get_byte();
        let b14 = self.get_byte();
        let b15 = self.get_byte();
        let v = ((b0 as u128) << 120) | ((b1 as u128) << 112) | ((b2 as u128) << 104) | ((
        b3 as u128) << 96) | ((b4 as u128) << 88) | ((b5 as u128) << 80) | ((b6 as u128) << 72) | ((
        b7 as u128) << 64) | ((b8 as u128) << 56) | ((b9 as u128) << 48) | ((b10 as u128) << 40) | (
        (b11 as u128) << 32) | ((b12 as u128) << 24) | ((b13 as u128) << 16) | ((b14 as u128) << 8)
            | (b15 as u128);
        proof {
            let x = v;
            assert((x >> 120) & 0xff == b0 && (x >> 112) & 0xff == b1 && (x >> 104) & 0xff == b2
                && (x >> 96) & 0xff == b3 && (x >> 88) & 0xff == b4 && (x >> 80) & 0xff == b5 && (x
                >> 72) & 0xff == b6 && (x >> 64) & 0xff == b7 && (x >> 56) & 0xff == b8 && (x >> 48)
                & 0xff == b9 && (x >> 40) & 0xff == b10 && (x >> 32) & 0xff == b11 && (x >> 24)
                & 0xff == b12 && (x >> 16) & 0xff == b13 && (x >> 8) & 0xff == b14 && x & 0xff
                == b15) by (bit_vector)
                requires
                    x == ((b0 as u128) << 120) | ((b1 as u128) << 112) | ((b2 as u128) << 104) | ((
                    b3 as u128) << 96) | ((b4 as u128) << 88) | ((b5 as u128) << 80) | ((b6 as u128)
                        << 72) | ((b7 as u128) << 64) | ((b8 as u128) << 56) | ((b9 as u128) << 48)
                        | ((b10 as u128) << 40) | ((b11 as u128) << 32) | ((b12 as u128) << 24) | ((
                    b13 as u128) << 16) | ((b14 as u128) << 8) | (b15 as u128),
            ;
            assert(be128(v) =~= old(self).logical().take(16));
        }
        Ok(v)
    }

    /// Decode an i8: the u8 read is shifted back down by 128.
    pub fn deserialize_i8(&mut self) -> (r: Result<i8, Error>)
        requires
            old(self).remaining_bytes().len() >= 1,
        ensures
            final(self).all_bytes() == old(self).all_bytes(),
            final(self).flipped() == old(self).flipped(),
            final(self).consumed() == old(self).consumed() + 1,
            r matches Ok(v) && enc_i8(v) == old(self).logical().take(1),
    {
        let u = match self.deserialize_u8() {
            Ok(u) => u,
            Err(e) => return Err(e),
        };
        let v: i8 = if u >= 0x80 {
            (u - 0x80) as i8
        } else {
            ((u as i8) - 64) - 64
        };
        Ok(v)
    }

    /// Decode an i16: the u16 read is shifted back down by 2^15.
    pub fn deserialize_i16(&mut self) -> (r: Result<i16, Error>)
        requires
            old(self).remaining_bytes().len() >= 2,
        ensures
            final(self).all_bytes() == old(self).all_bytes(),
            final(self).flipped() == old(self).flipped(),
            final(self).consumed() == old(self).consumed() + 2,
            r matches Ok(v) && enc_i16(v) == old(self).logical().take(2),
    {
        let u = match self.deserialize_u16() {
            Ok(u) => u,
            Err(e) => return Err(e),
        };
        let v: i16 = if u >= 0x8000 {
            (u - 0x8000) as i16
        } else {
            ((u as i16) - 0x4000) - 0x4000
        };
        Ok(v)
    }

    /// Decode an i32: the u32 read is shifted back down by 2^31.
    pub fn deserialize_i32(&mut self) -> (r: Result<i32, Error>)
        requires
            old(self).remaining_bytes().len() >= 4,
        ensures
            final(self).all_bytes() == old(self).all_bytes(),
            final(self).flipped() == old(self).flipped(),
            final(self).consumed() == old(self).consumed() + 4,
            r matches Ok(v) && enc_i32(v) == old(self).logical().take(4),
    {
        let u = match self.deserialize_u32() {
            Ok(u) => u,
            Err(e) => return Err(e),
        };
        let v: i32 = if u >= 0x8000_0000 {
            (u - 0x8000_0000) as i32
        } else {
            ((u as i32) - 0x4000_0000) - 0x4000_0000
        };
        Ok(v)
    }

    /// Decode an i64: the u64 read is shifted back down by 2^63.
    pub fn deserialize_i64(&mut self) -> (r: Result<i64, Error>)
        requires
            old(self).remaining_bytes().len() >= 8,
        ensures
            final(self).all_bytes() == old(self).all_bytes(),
            final(self).flipped() == old(self).flipped(),
            final(self).consumed() == old(self).consumed() + 8,
            r matches Ok(v) && enc_i64(v) == old(self).logical().take(8),
    {
        let u = match self.deserialize_u64() {
            Ok(u) => u,
            Err(e) => return Err(e),
        };
        let v: i64 = if u >= 0x8000_0000_0000_0000 {
            (u - 0x8000_0000_0000_0000) as i64
        } else {
            ((u as i64) - 0x4000_0000_0000_0000) - 0x4000_0000_0000_0000
        };
        Ok(v)
    }

    /// Decode an i128: the u128 read is shifted back down by 2^127.
    pub fn deserialize_i128(&mut self) -> (r: Result<i128, Error>)
        requires
            old(self).remaining_bytes().len() >= 16,
        ensures
            final(self).all_bytes() == old(self).all_bytes(),
            final(self).flipped() == old(self).flipped(),
            final(self).consumed() == old(self).consumed() + 16,
            r matches Ok(v) && enc_i128(v) == old(self).logical().take(16),
    {
        let u = match self.deserialize_u128() {
            Ok(u) => u,
            Err(e) => return Err(e),
        };
        let v: i128 = if u >= 0x8000_0000_0000_0000_0000_0000_0000_0000 {
            (u - 0x8000_0000_0000_0000_0000_0000_0000_0000) as i128
        } else {
            ((u as i128) - 0x4000_0000_0000_0000_0000_0000_0000_0000)
                - 0x4000_0000_0000_0000_0000_0000_0000_0000
        };
        Ok(v)
    }

    /// Decode the bit pattern of a binary32 value: the bytes read are the
    /// order-preserving transform of the result.
    pub fn deserialize_f32_bits(&mut self) -> (r: Result<u32, Error>)
        requires
            old(self).remaining_bytes().len() >= 4,
        ensures
            final(self).all_bytes() == old(self).all_bytes(),
            final(self).flipped() == old(self).flipped(),
            final(self).consumed() == old(self).consumed() + 4,
            r matches Ok(v) && enc_u32(f32_key(v)) == old(self).logical().take(4),
    {
        let u = match self.deserialize_u32() {
            Ok(u) => u,
            Err(e) => return Err(e),
        };
        let v: u32 = if u & 0x8000_0000 != 0 {
            u & 0x7fff_ffff
        } else {
            !u
        };
        proof {
            let x = u;
            assert(f32_key(if x & 0x8000_0000 != 0 {
                x & 0x7fff_ffff
            } else {
                !x
            }) == x) by (bit_vector);
        }
        Ok(v)
    }

    /// Decode the bit pattern of a binary64 value: the bytes read are the
    /// order-preserving transform of the result.
    pub fn deserialize_f64_bits(&mut self) -> (r: Result<u64, Error>)
        requires
            old(self).remaining_bytes().len() >= 8,
        ensures
            final(self).all_bytes() == old(self).all_bytes(),
            final(self).flipped() == old(self).flipped(),
            final(self).consumed() == old(self).consumed() + 8,
            r matches Ok(v) && enc_u64(f64_key(v)) == old(self).logical().take(8),
    {
        let u = match self.deserialize_u64() {
            Ok(u) => u,
            Err(e) => return Err(e),
        };
        let v: u64 = if u & 0x8000_0000_0000_0000 != 0 {
            u & 0x7fff_ffff_ffff_ffff
        } else {
            !u
        };
        proof {
            let x = u;
            assert(f64_key(if x & 0x8000_0000_0000_0000 != 0 {
                x & 0x7fff_ffff_ffff_ffff
            } else {
                !x
            }) == x) by (bit_vector);
        }
        Ok(v)
    }

    /// Decode a char from its Unicode scalar value, read via the u32 rule;
    /// a u32 that is no valid scalar value is an `InvalidCharEncoding` error.
    pub fn deserialize_char(&mut self) -> (r: Result<char, Error>)
        requires
            old(self).remaining_bytes().len() >= 4,
        ensures
            final(self).all_bytes() == old(self).all_bytes(),
            final(self).flipped() == old(self).flipped(),
            final(self).consumed() == old(self).consumed() + 4,
            r matches Ok(c) ==> enc_char(c) == old(self).logical().take(4),
            r matches Err(e) ==> (e matches Error::InvalidCharEncoding(u)
                && !vstd::utf8::is_scalar(u) && enc_u32(u) == old(self).logical().take(4)),
    {
        let u = match self.deserialize_u32() {
            Ok(u) => u,
            Err(e) => return Err(e),
        };
        match sink::char_from_u32(u) {
            Some(c) => Ok(c),
            None => Err(Error::InvalidCharEncoding(u)),
        }
    }

    /// Decode the tag of an optional value: `false` for absent, `true` for
    /// present (the value itself follows); any other tag byte is an
    /// `InvalidTagEncoding` error.
    pub fn deserialize_option_tag(&mut self) -> (r: Result<bool, Error>)
        requires
            old(self).remaining_bytes().len() >= 1,
        ensures
            final(self).all_bytes() == old(self).all_bytes(),
            final(self).flipped() == old(self).flipped(),
            final(self).consumed() == old(self).consumed() + 1,
            r matches Ok(v) ==> old(self).logical()[0] == (if v {
                1u8
            } else {
                0u8
            }),
            r matches Err(e) ==> e == Error::InvalidTagEncoding(old(self).logical()[0] as usize)
                && old(self).logical()[0] != 0 && old(self).logical()[0] != 1,
    {
        let b = self.get_byte();
        match b {
            0 => Ok(false),
            1 => Ok(true),
            t => Err(Error::InvalidTagEncoding(t as usize)),
        }
    }

    /// Decode a unit value: no bytes.
    pub fn deserialize_unit(&mut self) -> (r: Result<(), Error>)
        ensures
            *final(self) == *old(self),
            r is Ok,
    {
        Ok(())
    }

    /// Decode the marker before a sequence element: `true` when an element
    /// follows, `false` at the terminator; any other marker byte is an
    /// `InvalidSeqEncoding` error.
    pub fn deserialize_seq_element_tag(&mut self) -> (r: Result<bool, Error>)
        requires
            old(self).remaining_bytes().len() >= 1,
        ensures
            final(self).all_bytes() == old(self).all_bytes(),
            final(self).flipped() == old(self).flipped(),
            final(self).consumed() == old(self).consumed() + 1,
            r matches Ok(v) ==> old(self).logical()[0] == (if v {
                1u8
            } else {
                0u8
            }),
            r matches Err(e) ==> e == Error::InvalidSeqEncoding(old(self).logical()[0])
                && old(self).logical()[0] != 0 && old(self).logical()[0] != 1,
    {
        let b = self.get_byte();
        match b {
            1 => Ok(true),
            0 => Ok(false),
            v => Err(Error::InvalidSeqEncoding(v)),
        }
    }

    /// Decode the variant index of a sum value from one byte.
    pub fn deserialize_variant(&mut self) -> (r: Result<u32, Error>)
        requires
            old(self).remaining_bytes().len() >= 1,
        ensures
            final(self).all_bytes() == old(self).all_bytes(),
            final(self).flipped() == old(self).flipped(),
            final(self).consumed() == old(self).consumed() + 1,
            r matches Ok(v) && v == old(self).logical()[0] as u32,
    {
        let b = self.get_byte();
        Ok(b as u32)
    }

    /// Read a byte-string value: validates the framing and returns the
    /// payload bytes.
    #[verifier::rlimit(100)]
    #[verifier::spinoff_prover]
    fn read_bytes(&mut self) -> (r: Result<Vec<u8>, Error>)
        requires
            !(dec_bytes(old(self).logical()) is Short),
        ensures
            final(self).all_bytes() == old(self).all_bytes(),
            final(self).flipped() == old(self).flipped(),
            match dec_bytes(old(self).logical()) {
                BytesDecode::Found { content, used } => r matches Ok(v) && v@ == content && final(self).consumed() == old(self).consumed() + used,
                BytesDecode::Bad { b, used } => r == Err::<Vec<u8>, Error>(
                    Error::InvalidBytesEncoding(b),
                ) && final(self).consumed() == old(self).consumed() + used,
                BytesDecode::Short => false,
            },
    {
        let head = self.get_byte();
        if head == 0 {
            return Ok(Vec::new());
        }
        if head != 1 {
            return Err(Error::InvalidBytesEncoding(head));
        }
        let ghost g0 = old(self).logical().drop_first();
        proof {
            assert(g0 =~= old(self).logical().skip(1));
            assert(g0.skip(0) =~= g0);
        }
        let mut bytes: Vec<u8> = Vec::new();
        proof {
            if dec_groups(g0) is Found {
                let c = dec_groups(g0)->Found_content;
                assert(bytes@ + c =~= c);
            }
        }
        let ghost k: int = 0;
        loop
            invariant
                old(self).logical().len() >= 1,
                old(self).logical()[0] == 1,
                g0 == old(self).logical().skip(1),
                !(dec_groups(g0) is Short),
                self.all_bytes() == old(self).all_bytes(),
                self.flipped() == old(self).flipped(),
                self.consumed() == old(self).consumed() + 1 + 9 * k,
                k >= 0,
                9 * k <= g0.len(),
                self.logical() == g0.skip(9 * k),
                dec_groups(g0) == match dec_groups(self.logical()) {
                    BytesDecode::Short => BytesDecode::Short,
                    BytesDecode::Bad { b, used } => BytesDecode::Bad { b, used: used + 9 * k },
                    BytesDecode::Found { content, used } => BytesDecode::Found {
                        content: bytes@ + content,
                        used: used + 9 * k,
                    },
                },
            decreases self.remaining_bytes().len(),
        {
            let ghost cur = self.logical();
            let ghost pre = bytes@;
            proof {
                assert(!(dec_groups(cur) is Short));
                assert(cur.len() >= 9);
                lemma_maybe_flip_len(self.remaining_bytes(), self.flipped());
            }
            let mut chunk: Vec<u8> = Vec::new();
            let mut idx: usize = 0;
            while idx < 8
                invariant
                    idx <= 8,
                    cur.len() >= 9,
                    self.all_bytes() == old(self).all_bytes(),
                    self.flipped() == old(self).flipped(),
                    self.consumed() == old(self).consumed() + 1 + 9 * k + idx,
                    self.remaining_bytes().len() + idx >= 9,
                    self.logical() == cur.skip(idx as int),
                    chunk@ == cur.take(idx as int),
                decreases 8 - idx,
            {
                let b = self.get_byte();
                chunk.push(b);
                proof {
                    assert(cur.skip(idx as int).drop_first() =~= cur.skip(idx + 1));
                    assert(cur.skip(idx as int)[0] == cur[idx as int]);
                    assert(cur.take(idx as int).push(cur[idx as int]) =~= cur.take(idx + 1));
                }
                idx = idx + 1;
            }
            let trailer = self.get_byte();
            proof {
                assert(cur.skip(8)[0] == cur[8]);
                assert(cur.skip(8).drop_first() =~= cur.skip(9));
            }
            if 1 <= trailer && trailer <= 8 {
                let mut t: usize = 0;
                while t < trailer as usize
                    invariant
                        t <= trailer <= 8,
                        chunk@ == cur.take(8),
                        cur.len() >= 9,
                        self.all_bytes() == old(self).all_bytes(),
                        self.flipped() == old(self).flipped(),
                        self.consumed() == old(self).consumed() + 1 + 9 * k + 9,
                        self.logical() == cur.skip(9),
                        bytes@ == pre + cur.take(t as int),
                    decreases trailer as int - t,
                {
                    proof {
                        assert(chunk@[t as int] == cur[t as int]);
                    }
                    bytes.push(chunk[t]);
                    proof {
                        assert(pre + cur.take(t as int) + seq![cur[t as int]] =~= pre + cur.take(
                            t + 1,
                        ));
                    }
                    t = t + 1;
                }
                proof {
                    assert(dec_groups(cur) == BytesDecode::Found {
                        content: cur.take(trailer as int),
                        used: 9,
                    });
                }
                return Ok(bytes);
            } else if trailer == 9 {
                let mut t: usize = 0;
                while t < 8
                    invariant
                        t <= 8,
                        chunk@ == cur.take(8),
                        cur.len() >= 9,
                        self.all_bytes() == old(self).all_bytes(),
                        self.flipped() == old(self).flipped(),
                        self.consumed() == old(self).consumed() + 1 + 9 * k + 9,
                        self.logical() == cur.skip(9),
                        bytes@ == pre + cur.take(t as int),
                    decreases 8 - t,
                {
                    proof {
                        assert(chunk@[t as int] == cur[t as int]);
                    }
                    bytes.push(chunk[t]);
                    proof {
                        assert(pre + cur.take(t as int) + seq![cur[t as int]] =~= pre + cur.take(
                            t + 1,
                        ));
                    }
                    t = t + 1;
                }
                proof {
                    vstd::seq_lib::lemma_seq_skip_of_skip(g0, 9 * k, 9);
                    assert(g0.skip(9 * k).skip(9) =~= g0.skip(9 * (k + 1)));
                    assert(bytes@ == pre + cur.take(8));
                    if dec_groups(cur.skip(9)) is Found {
                        let c1 = dec_groups(cur.skip(9))->Found_content;
                        assert(pre + (cur.take(8) + c1) =~= (pre + cur.take(8)) + c1);
                    }
                }
                proof {
                    k = k + 1;
                }
            } else {
                proof {
                    assert(dec_groups(cur) == BytesDecode::Bad { b: cur[8], used: 9 });
                }
                return Err(Error::InvalidBytesEncoding(trailer));
            }
        }
    }

    /// Decode a byte string.
    pub fn deserialize_bytes(&mut self) -> (r: Result<Vec<u8>, Error>)
        requires
            !(dec_bytes(old(self).logical()) is Short),
        ensures
            final(self).all_bytes() == old(self).all_bytes(),
            final(self).flipped() == old(self).flipped(),
            match dec_bytes(old(self).logical()) {
                BytesDecode::Found { content, used } => r matches Ok(v) && v@ == content && final(self).consumed() == old(self).consumed() + used,
                BytesDecode::Bad { b, used } => r == Err::<Vec<u8>, Error>(
                    Error::InvalidBytesEncoding(b),
                ) && final(self).consumed() == old(self).consumed() + used,
                BytesDecode::Short => false,
            },
    {
        self.read_bytes()
    }

    /// Decode a text string: a byte string that must hold valid UTF-8, else
    /// the `Utf8` error.
    pub fn deserialize_string(&mut self) -> (r: Result<String, Error>)
        requires
            !(dec_bytes(old(self).logical()) is Short),
        ensures
            final(self).all_bytes() == old(self).all_bytes(),
            final(self).flipped() == old(self).flipped(),
            match dec_bytes(old(self).logical()) {
                BytesDecode::Found { content, used } => final(self).consumed() == old(self).consumed() + used && (if vstd::utf8::valid_utf8(content) {
                    r matches Ok(s) && vstd::utf8::encode_utf8(s@) == content
                } else {
                    r == Err::<String, Error>(Error::Utf8)
                }),
                BytesDecode::Bad { b, used } => r == Err::<String, Error>(
                    Error::InvalidBytesEncoding(b),
                ) && final(self).consumed() == old(self).consumed() + used,
                BytesDecode::Short => false,
            },
    {
        let bytes = match self.read_bytes() {
            Ok(b) => b,
            Err(e) => return Err(e),
        };
        match sink::string_from_utf8(bytes) {
            Some(s) => Ok(s),
            None => Err(Error::Utf8),
        }
    }

    /// Skip the next byte string without materialising it; returns its
    /// length.
    #[verifier::rlimit(100)]
    #[verifier::spinoff_prover]
    pub fn skip_bytes(&mut self) -> (r: Result<usize, Error>)
        requires
            !(dec_bytes(old(self).logical()) is Short),
        ensures
            final(self).all_bytes() == old(self).all_bytes(),
            final(self).flipped() == old(self).flipped(),
            match dec_bytes(old(self).logical()) {
                BytesDecode::Found { content, used } => r matches Ok(n) && n == content.len()
                    && final(self).consumed() == old(self).consumed() + used,
                BytesDecode::Bad { b, used } => r == Err::<usize, Error>(
                    Error::InvalidBytesEncoding(b),
                ) && final(self).consumed() == old(self).consumed() + used,
                BytesDecode::Short => false,
            },
    {
        let head = self.get_byte();
        if head == 0 {
            return Ok(0);
        }
        if head != 1 {
            return Err(Error::InvalidBytesEncoding(head));
        }
        let ghost g0 = old(self).logical().drop_first();
        proof {
            assert(g0 =~= old(self).logical().skip(1));
            assert(g0.skip(0) =~= g0);
            if dec_groups(g0) is Found {
                let c = dec_groups(g0)->Found_content;
                assert(g0.take(0) + c =~= c);
            }
        }
        let mut total_len: usize = 0;
        let ghost k: int = 0;
        let ghost acc: Seq<u8> = Seq::empty();
        loop
            invariant
                old(self).logical().len() >= 1,
                old(self).logical()[0] == 1,
                g0 == old(self).logical().skip(1),
                !(dec_groups(g0) is Short),
                self.all_bytes() == old(self).all_bytes(),
                self.flipped() == old(self).flipped(),
                self.consumed() == old(self).consumed() + 1 + 9 * k,
                k >= 0,
                9 * k <= g0.len(),
                total_len == 8 * k,
                acc.len() == 8 * k,
                8 * k + 8 <= usize::MAX,
                self.logical() == g0.skip(9 * k),
                dec_groups(g0) == match dec_groups(self.logical()) {
                    BytesDecode::Short => BytesDecode::Short,
                    BytesDecode::Bad { b, used } => BytesDecode::Bad { b, used: used + 9 * k },
                    BytesDecode::Found { content, used } => BytesDecode::Found {
                        content: acc + content,
                        used: used + 9 * k,
                    },
                },
            decreases self.remaining_bytes().len(),
        {
            let ghost cur = self.logical();
            let ghost rem0 = self.remaining_bytes();
            proof {
                assert(!(dec_groups(cur) is Short));
                assert(cur.len() >= 9);
                lemma_maybe_flip_len(rem0, self.flipped());
            }
            self.advance(8);
            proof {
                use_type_invariant(&*self);
                vstd::seq_lib::lemma_seq_skip_of_skip(self.all_bytes(), self.consumed() - 8, 8);
                assert(self.remaining_bytes() =~= rem0.skip(8));
                lemma_maybe_flip_skip(rem0, self.flipped(), 8);
            }
            let trailer = self.get_byte();
            proof {
                assert(cur.skip(8)[0] == cur[8]);
                assert(cur.skip(8).drop_first() =~= cur.skip(9));
            }
            if 1 <= trailer && trailer <= 8 {
                proof {
                    assert(dec_groups(cur) == BytesDecode::Found {
                        content: cur.take(trailer as int),
                        used: 9,
                    });
                    assert((acc + cur.take(trailer as int)).len() == 8 * k + trailer as int);
                }
                return Ok(total_len + trailer as usize);
            } else if trailer == 9 {
                proof {
                    vstd::seq_lib::lemma_seq_skip_of_skip(g0, 9 * k, 9);
                    assert(g0.skip(9 * k).skip(9) =~= g0.skip(9 * (k + 1)));
                    if dec_groups(cur.skip(9)) is Found {
                        let c1 = dec_groups(cur.skip(9))->Found_content;
                        assert(acc + (cur.take(8) + c1) =~= (acc + cur.take(8)) + c1);
                    }
                }
                total_len = total_len + 8;
                proof {
                    acc = acc + cur.take(8);
                    k = k + 1;
                    assert(self.consumed() <= usize::MAX);
                    assert(8 * k + 8 <= usize::MAX);
                }
            } else {
                proof {
                    assert(dec_groups(cur) == BytesDecode::Bad { b: cur[8], used: 9 });
                }
                return Err(Error::InvalidBytesEncoding(trailer));
            }
        }
    }

    /// Decoding a map is outside the format.
    pub fn deserialize_map(&mut self) -> (r: Result<(), Error>)
        ensures
            *final(self) == *old(self),
            r == Err::<(), Error>(Error::NotSupported("map")),
    {
        Err(Error::NotSupported("map"))
    }

    /// Self-describing decoding is outside the format: the decoder must be
    /// told the expected type.
    pub fn deserialize_any(&mut self) -> (r: Result<(), Error>)
        ensures
            *final(self) == *old(self),
            r == Err::<(), Error>(Error::NotSupported("deserialize_any")),
    {
        Err(Error::NotSupported("deserialize_any"))
    }

    /// Borrowed strings cannot be produced: the payload is not stored
    /// contiguously in the input.
    pub fn deserialize_str(&mut self) -> (r: Result<(), Error>)
        ensures
            *final(self) == *old(self),
            r == Err::<(), Error>(Error::NotSupported("borrowed str")),
    {
        Err(Error::NotSupported("borrowed str"))
    }

    /// Identifiers are outside the format.
    pub fn deserialize_identifier(&mut self) -> (r: Result<(), Error>)
        ensures
            *final(self) == *old(self),
            r == Err::<(), Error>(Error::NotSupported("deserialize_identifier")),
    {
        Err(Error::NotSupported("deserialize_identifier"))
    }

    /// Skipping an unknown value is outside the format.
    pub fn deserialize_ignored_any(&mut self) -> (r: Result<(), Error>)
        ensures
            *final(self) == *old(self),
            r == Err::<(), Error>(Error::NotSupported("deserialize_ignored_any")),
    {
        Err(Error::NotSupported("deserialize_ignored_any"))
    }
}

} // verus!
