use vstd::prelude::*;

use crate::enc::{
    be128, be16, be32, be64, enc_bool, enc_bytes, enc_char, enc_f32_bits, enc_f64_bits, enc_groups,
    enc_i128, enc_i16, enc_i32, enc_i64, enc_i8, enc_option, enc_str, enc_u128, enc_u16, enc_u32,
    enc_u64, enc_u8, enc_variant, flip_seq, lemma_be128_flip, lemma_be16_flip, lemma_be32_flip,
    lemma_be64_flip, lemma_flip_seq_append, maybe_flip, pad8,
};
use crate::error::Error;
use crate::sink;

verus! {

broadcast use vstd::seq_lib::group_seq_properties;

/// A structure that serializes values into memcomparable bytes.
///
/// The serializer owns a growable byte buffer and appends the encoding of
/// each value handed to it; `bytes()` is the buffer's content and
/// `flipped()` the current order-reversal flag.
pub struct Serializer {
    output: Vec<u8>,
    flip: bool,
}

impl Serializer {
    /// The bytes written so far.
    pub closed spec fn bytes(self) -> Seq<u8> {
        self.output@
    }

    /// Whether descending order is in effect: every byte written is
    /// complemented.
    pub closed spec fn flipped(self) -> bool {
        self.flip
    }

    /// Create a new `Serializer` that appends to `buffer`.
    pub fn new(buffer: Vec<u8>) -> (r: Serializer)
        ensures
            r.bytes() == buffer@,
            !r.flipped(),
    {
        Serializer { output: buffer, flip: false }
    }

    /// Unwrap the inner buffer from the `Serializer`.
    pub fn into_inner(self) -> (r: Vec<u8>)
        ensures
            r@ == self.bytes(),
    {
        self.output
    }

    /// Set whether data is serialized in reverse order.
    pub fn set_reverse(&mut self, reverse: bool)
        ensures
            final(self).bytes() == old(self).bytes(),
            final(self).flipped() == reverse,
    {
        self.flip = reverse;
    }

    /// Append one logical byte, complemented when descending order is on.
    fn put_byte(&mut self, v: u8)
        ensures
            final(self).flipped() == old(self).flipped(),
            final(self).bytes() == old(self).bytes() + maybe_flip(seq![v], old(self).flipped()),
    {
        let b = if self.flip {
            !v
        } else {
            v
        };
        sink::put_u8(&mut self.output, b);
        proof {
            assert(old(self).bytes().push(b) =~= old(self).bytes() + maybe_flip(
                seq![v],
                old(self).flipped(),
            ));
        }
    }

    /// Append one byte directly to the sink, bypassing the order-reversal
    /// flip.
    pub(crate) fn put_raw(&mut self, v: u8)
        ensures
            final(self).flipped() == old(self).flipped(),
            final(self).bytes() == old(self).bytes().push(v),
    {
        sink::put_u8(&mut self.output, v);
    }

    /// Encode a bool: `false` as 0x00, `true` as 0x01.
    pub fn serialize_bool(&mut self, v: bool) -> (r: Result<(), Error>)
        ensures
            r is Ok,
            final(self).flipped() == old(self).flipped(),
            final(self).bytes() == old(self).bytes() + maybe_flip(
                enc_bool(v),
                old(self).flipped(),
            ),
    {
        self.serialize_u8(if v { 1 } else { 0 })
    }

    /// Encode a u8 as itself.
    pub fn serialize_u8(&mut self, v: u8) -> (r: Result<(), Error>)
        ensures
            r is Ok,
            final(self).flipped() == old(self).flipped(),
            final(self).bytes() == old(self).bytes() + maybe_flip(enc_u8(v), old(self).flipped()),
    {
        self.put_byte(v);
        Ok(())
    }

    /// Encode a u16 as two big-endian bytes.
    pub fn serialize_u16(&mut self, v: u16) -> (r: Result<(), Error>)
        ensures
            r is Ok,
            final(self).flipped() == old(self).flipped(),
            final(self).bytes() == old(self).bytes() + maybe_flip(enc_u16(v), old(self).flipped()),
    {
        let x = if self.flip {
            !v
        } else {
            v
        };
        proof {
            lemma_be16_flip(v);
        }
        sink::put_u16(&mut self.output, x);
        Ok(())
    }

    /// Encode a u32 as four big-endian bytes.
    pub fn serialize_u32(&mut self, v: u32) -> (r: Result<(), Error>)
        ensures
            r is Ok,
            final(self).flipped() == old(self).flipped(),
            final(self).bytes() == old(self).bytes() + maybe_flip(enc_u32(v), old(self).flipped()),
    {
        let x = if self.flip {
            !v
        } else {
            v
        };
        proof {
            lemma_be32_flip(v);
        }
        sink::put_u32(&mut self.output, x);
        Ok(())
    }

    /// Encode a u64 as eight big-endian bytes.
    pub fn serialize_u64(&mut self, v: u64) -> (r: Result<(), Error>)
        ensures
            r is Ok,
            final(self).flipped() == old(self).flipped(),
            final(self).bytes() == old(self).bytes() + maybe_flip(enc_u64(v), old(self).flipped()),
    {
        let x = if self.flip {
            !v
        } else {
            v
        };
        proof {
            lemma_be64_flip(v);
        }
        sink::put_u64(&mut self.output, x);
        Ok(())
    }

    /// Encode a u128 as sixteen big-endian bytes.
    pub fn serialize_u128(&mut self, v: u128) -> (r: Result<(), Error>)
        ensures
            r is Ok,
            final(self).flipped() == old(self).flipped(),
            final(self).bytes() == old(self).bytes() + maybe_flip(
                enc_u128(v),
                old(self).flipped(),
            ),
    {
        let x = if self.flip {
            !v
        } else {
            v
        };
        proof {
            lemma_be128_flip(v);
        }
        sink::put_u128(&mut self.output, x);
        Ok(())
    }

    /// Encode an i8 in offset binary: the value plus 128, as a u8.
    pub fn serialize_i8(&mut self, v: i8) -> (r: Result<(), Error>)
        ensures
            r is Ok,
            final(self).flipped() == old(self).flipped(),
            final(self).bytes() == old(self).bytes() + maybe_flip(enc_i8(v), old(self).flipped()),
    {
        let u: u8 = if v >= 0 {
            (v as u8) + 0x80
        } else {
            ((v + 64) + 64) as u8
        };
        self.serialize_u8(u)
    }

    /// Encode an i16 in offset binary: the value plus 2^15, as a u16.
    pub fn serialize_i16(&mut self, v: i16) -> (r: Result<(), Error>)
        ensures
            r is Ok,
            final(self).flipped() == old(self).flipped(),
            final(self).bytes() == old(self).bytes() + maybe_flip(enc_i16(v), old(self).flipped()),
    {
        let u: u16 = if v >= 0 {
            (v as u16) + 0x8000
        } else {
            ((v + 0x4000) + 0x4000) as u16
        };
        self.serialize_u16(u)
    }

    /// Encode an i32 in offset binary: the value plus 2^31, as a u32.
    pub fn serialize_i32(&mut self, v: i32) -> (r: Result<(), Error>)
        ensures
            r is Ok,
            final(self).flipped() == old(self).flipped(),
            final(self).bytes() == old(self).bytes() + maybe_flip(enc_i32(v), old(self).flipped()),
    {
        let u: u32 = if v >= 0 {
            (v as u32) + 0x8000_0000
        } else {
            ((v + 0x4000_0000) + 0x4000_0000) as u32
        };
        self.serialize_u32(u)
    }

    /// Encode an i64 in offset binary: the value plus 2^63, as a u64.
    pub fn serialize_i64(&mut self, v: i64) -> (r: Result<(), Error>)
        ensures
            r is Ok,
            final(self).flipped() == old(self).flipped(),
            final(self).bytes() == old(self).bytes() + maybe_flip(enc_i64(v), old(self).flipped()),
    {
        let u: u64 = if v >= 0 {
            (v as u64) + 0x8000_0000_0000_0000
        } else {
            ((v + 0x4000_0000_0000_0000) + 0x4000_0000_0000_0000) as u64
        };
        self.serialize_u64(u)
    }

    /// Encode an i128 in offset binary: the value plus 2^127, as a u128.
    pub fn serialize_i128(&mut self, v: i128) -> (r: Result<(), Error>)
        ensures
            r is Ok,
            final(self).flipped() == old(self).flipped(),
            final(self).bytes() == old(self).bytes() + maybe_flip(
                enc_i128(v),
                old(self).flipped(),
            ),
    {
        let u: u128 = if v >= 0 {
            (v as u128) + 0x8000_0000_0000_0000_0000_0000_0000_0000
        } else {
            ((v + 0x4000_0000_0000_0000_0000_0000_0000_0000)
                + 0x4000_0000_0000_0000_0000_0000_0000_0000) as u128
        };
        self.serialize_u128(u)
    }

    /// Encode the binary32 value whose IEEE-754 bit pattern is `u`.
    ///
    /// NaN patterns are first replaced by the canonical NaN and zeros of
    /// either sign by +0.0; then sign-positive patterns get the sign bit set
    /// and sign-negative patterns are complemented, so that byte order agrees
    /// with the floats' total order.
    pub fn serialize_f32_bits(&mut self, u: u32) -> (r: Result<(), Error>)
        ensures
            r is Ok,
            final(self).flipped() == old(self).flipped(),
            final(self).bytes() == old(self).bytes() + maybe_flip(
                enc_f32_bits(u),
                old(self).flipped(),
            ),
    {
        let x: u32 = if (u & 0x7f80_0000) == 0x7f80_0000 && (u & 0x007f_ffff) != 0 {
            0x7fc0_0000
        } else if u & 0x7fff_ffff == 0 {
            0
        } else {
            u
        };
        let key: u32 = if x & 0x8000_0000 == 0 {
            x | 0x8000_0000
        } else {
            !x
        };
        self.serialize_u32(key)
    }

    /// Encode the binary64 value whose IEEE-754 bit pattern is `u`, with the
    /// same normalisation and order-preserving transform as binary32.
    pub fn serialize_f64_bits(&mut self, u: u64) -> (r: Result<(), Error>)
        ensures
            r is Ok,
            final(self).flipped() == old(self).flipped(),
            final(self).bytes() == old(self).bytes() + maybe_flip(
                enc_f64_bits(u),
                old(self).flipped(),
            ),
    {
        let x: u64 = if (u & 0x7ff0_0000_0000_0000) == 0x7ff0_0000_0000_0000 && (u
            & 0x000f_ffff_ffff_ffff) != 0 {
            0x7ff8_0000_0000_0000
        } else if u & 0x7fff_ffff_ffff_ffff == 0 {
            0
        } else {
            u
        };
        let key: u64 = if x & 0x8000_0000_0000_0000 == 0 {
            x | 0x8000_0000_0000_0000
        } else {
            !x
        };
        self.serialize_u64(key)
    }

    /// Encode a char as its Unicode scalar value via the u32 rule.
    pub fn serialize_char(&mut self, v: char) -> (r: Result<(), Error>)
        ensures
            r is Ok,
            final(self).flipped() == old(self).flipped(),
            final(self).bytes() == old(self).bytes() + maybe_flip(
                enc_char(v),
                old(self).flipped(),
            ),
    {
        self.serialize_u32(v as u32)
    }

    /// Encode a text string as its UTF-8 bytes.
    pub fn serialize_str(&mut self, v: &str) -> (r: Result<(), Error>)
        ensures
            r is Ok,
            final(self).flipped() == old(self).flipped(),
            final(self).bytes() == old(self).bytes() + maybe_flip(enc_str(v@), old(self).flipped()),
    {
        self.serialize_bytes(v.as_bytes())
    }

    /// Encode a byte string: 0x00 for the empty string, else 0x01 followed by
    /// 9-byte groups of 8 payload bytes (zero padded) and a trailer byte that
    /// is the group's significant length, or 9 when more groups follow.
    pub fn serialize_bytes(&mut self, v: &[u8]) -> (r: Result<(), Error>)
        ensures
            r is Ok,
            final(self).flipped() == old(self).flipped(),
            final(self).bytes() == old(self).bytes() + maybe_flip(
                enc_bytes(v@),
                old(self).flipped(),
            ),
    {
        if v.len() == 0 {
            self.put_byte(0);
            return Ok(());
        }
        let ghost flip = self.flipped();
        self.put_byte(1);
        proof {
            lemma_maybe_flip_append(seq![1u8], enc_groups(v@), flip);
        }
        let mut i: usize = 0;
        while v.len() - i > 8
            invariant
                i % 8 == 0,
                i < v.len(),
                self.flipped() == flip,
                old(self).bytes() + maybe_flip(enc_bytes(v@), flip) == self.bytes() + maybe_flip(
                    enc_groups(v@.skip(i as int)),
                    flip,
                ),
            decreases v.len() - i,
        {
            let ghost gs = self.bytes();
            let mut j: usize = i;
            while j < i + 8
                invariant
                    i <= j <= i + 8,
                    i + 8 < v.len(),
                    self.flipped() == flip,
                    self.bytes() == gs + maybe_flip(v@.subrange(i as int, j as int), flip),
                decreases i + 8 - j,
            {
                self.put_byte(v[j]);
                proof {
                    lemma_maybe_flip_append(
                        v@.subrange(i as int, j as int),
                        seq![v@[j as int]],
                        flip,
                    );
                    assert(v@.subrange(i as int, j as int) + seq![v@[j as int]] =~= v@.subrange(
                        i as int,
                        j + 1,
                    ));
                }
                j = j + 1;
            }
            self.put_byte(9);
            proof {
                let s = v@.skip(i as int);
                assert(s.len() > 8);
                assert(s.take(8) =~= v@.subrange(i as int, i + 8));
                assert(s.skip(8) =~= v@.skip(i + 8));
                lemma_maybe_flip_append(v@.subrange(i as int, i + 8), seq![9u8], flip);
                assert(v@.subrange(i as int, i + 8) + seq![9u8] =~= s.take(8).push(9u8));
                lemma_maybe_flip_append(s.take(8).push(9u8), enc_groups(s.skip(8)), flip);
                assert(self.bytes() == gs + maybe_flip(s.take(8).push(9u8), flip));
                assert(enc_groups(s) == s.take(8).push(9u8) + enc_groups(s.skip(8)));
            }
            i = i + 8;
        }
        // final group: 1..=8 significant bytes, zero padding, length trailer
        let ghost gs = self.bytes();
        let rem = v.len() - i;
        let mut j: usize = i;
        while j < v.len()
            invariant
                i <= j <= v.len(),
                1 <= v.len() - i <= 8,
                self.flipped() == flip,
                self.bytes() == gs + maybe_flip(v@.subrange(i as int, j as int), flip),
            decreases v.len() - j,
        {
            self.put_byte(v[j]);
            proof {
                lemma_maybe_flip_append(v@.subrange(i as int, j as int), seq![v@[j as int]], flip);
                assert(v@.subrange(i as int, j as int) + seq![v@[j as int]] =~= v@.subrange(
                    i as int,
                    j + 1,
                ));
            }
            j = j + 1;
        }
        proof {
            assert(v@.subrange(i as int, v.len() as int) =~= v@.skip(i as int));
        }
        let pad = 8 - rem;
        let mut k: usize = 0;
        while k < pad
            invariant
                k <= pad,
                pad == 8 - (v.len() - i),
                i < v.len(),
                1 <= v.len() - i <= 8,
                self.flipped() == flip,
                self.bytes() == gs + maybe_flip(
                    v@.skip(i as int) + Seq::new(k as nat, |t: int| 0u8),
                    flip,
                ),
            decreases pad - k,
        {
            self.put_byte(0);
            proof {
                let padded = v@.skip(i as int) + Seq::new(k as nat, |t: int| 0u8);
                lemma_maybe_flip_append(padded, seq![0u8], flip);
                assert(padded + seq![0u8] =~= v@.skip(i as int) + Seq::new(
                    (k + 1) as nat,
                    |t: int| 0u8,
                ));
            }
            k = k + 1;
        }
        self.put_byte(rem as u8);
        proof {
            let s = v@.skip(i as int);
            assert(s.len() == v.len() - i);
            let padded = s + Seq::new((8 - s.len()) as nat, |t: int| 0u8);
            assert(padded =~= pad8(s));
            lemma_maybe_flip_append(padded, seq![s.len() as u8], flip);
            assert(padded + seq![s.len() as u8] =~= pad8(s).push(s.len() as u8));
            assert(enc_groups(s) == pad8(s).push(s.len() as u8));
        }
        Ok(())
    }

    /// Encode the absence of an optional value: one 0x00 byte.
    pub fn serialize_none(&mut self) -> (r: Result<(), Error>)
        ensures
            r is Ok,
            final(self).flipped() == old(self).flipped(),
            final(self).bytes() == old(self).bytes() + maybe_flip(
                enc_option(Option::None),
                old(self).flipped(),
            ),
    {
        self.serialize_u8(0)
    }

    /// Encode the presence tag of an optional value: one 0x01 byte, to be
    /// followed by the value's own encoding.
    pub fn serialize_some_tag(&mut self) -> (r: Result<(), Error>)
        ensures
            r is Ok,
            final(self).flipped() == old(self).flipped(),
            final(self).bytes() == old(self).bytes() + maybe_flip(
                seq![1u8],
                old(self).flipped(),
            ),
    {
        self.serialize_u8(1)
    }

    /// Encode a unit value: no bytes.
    pub fn serialize_unit(&mut self) -> (r: Result<(), Error>)
        ensures
            r is Ok,
            final(self).flipped() == old(self).flipped(),
            final(self).bytes() == old(self).bytes(),
    {
        Ok(())
    }

    /// Encode the marker that precedes each sequence element: one 0x01 byte.
    pub fn serialize_seq_element_tag(&mut self) -> (r: Result<(), Error>)
        ensures
            r is Ok,
            final(self).flipped() == old(self).flipped(),
            final(self).bytes() == old(self).bytes() + maybe_flip(
                seq![1u8],
                old(self).flipped(),
            ),
    {
        self.serialize_u8(1)
    }

    /// Encode the terminator that follows the last sequence element: one 0x00
    /// byte.
    pub fn serialize_seq_end(&mut self) -> (r: Result<(), Error>)
        ensures
            r is Ok,
            final(self).flipped() == old(self).flipped(),
            final(self).bytes() == old(self).bytes() + maybe_flip(
                seq![0u8],
                old(self).flipped(),
            ),
    {
        self.serialize_u8(0)
    }

    /// Encode the variant index of a sum value as one byte; indices that do
    /// not fit in a byte are rejected.
    pub fn serialize_variant(&mut self, variant_index: u32) -> (r: Result<(), Error>)
        ensures
            final(self).flipped() == old(self).flipped(),
            variant_index <= 255 ==> r is Ok && final(self).bytes() == old(self).bytes()
                + maybe_flip(enc_variant(variant_index), old(self).flipped()),
            variant_index > 255 ==> final(self).bytes() == old(self).bytes() && (r matches Err(e)
                && e matches Error::Message(m) && m@ == "too many variants"@),
    {
        if variant_index > 255 {
            return Err(Error::Message(
                <String as vstd::string::StringExecFns>::from_str("too many variants"),
            ));
        }
        proof {
            assert((variant_index & 0xff) == variant_index) by (bit_vector)
                requires
                    variant_index <= 255,
            ;
        }
        self.serialize_u8(variant_index as u8)
    }

    /// Encoding a map is outside the format: order over unordered collections
    /// is undefined.
    pub fn serialize_map(&mut self) -> (r: Result<(), Error>)
        ensures
            final(self).flipped() == old(self).flipped(),
            final(self).bytes() == old(self).bytes(),
            r == Err::<(), Error>(Error::NotSupported("map")),
    {
        Err(Error::NotSupported("map"))
    }
}

/// Appending commutes with bit flipping.
pub proof fn lemma_maybe_flip_append(a: Seq<u8>, b: Seq<u8>, flip: bool)
    ensures
        maybe_flip(a + b, flip) == maybe_flip(a, flip) + maybe_flip(b, flip),
{
    if flip {
        lemma_flip_seq_append(a, b);
    }
}

} // verus!
