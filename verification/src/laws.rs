use vstd::prelude::*;

use crate::enc::{
    be128, be16, be32, be64, dec_bytes, dec_groups, enc_bool, enc_bytes, enc_char, enc_f32_bits,
    enc_f64_bits, enc_groups, enc_i128, enc_i16, enc_i32, enc_i64, enc_i8, enc_str, enc_u128,
    enc_u16, enc_u32, enc_u64, enc_u8, f32_norm, f64_norm, flip_seq, pad8, BytesDecode,
};
use crate::order::{common_len, lemma_lex_characterize, lemma_lex_total, lex_lt, proper_prefix};

verus! {

broadcast use vstd::seq_lib::group_seq_properties;

// ---------------------------------------------------------------------------
// Round trips
//
// The deserializer's contracts say that the bytes it consumed are the
// encoding of the value it returned; together with the lemmas here, which
// say that an encoding determines its value, the decoded value is the one
// that was encoded.
// ---------------------------------------------------------------------------

/// Two bools with the same encoding are the same bool.
pub proof fn lemma_roundtrip_bool(x: bool, y: bool)
    requires
        enc_bool(x) == enc_bool(y),
    ensures
        x == y,
{
    assert(enc_bool(x)[0] == (if x {
        1u8
    } else {
        0u8
    }));
    assert(enc_bool(y)[0] == (if y {
        1u8
    } else {
        0u8
    }));
}

/// Two u8 values with the same encoding are equal.
pub proof fn lemma_roundtrip_u8(x: u8, y: u8)
    requires
        enc_u8(x) == enc_u8(y),
    ensures
        x == y,
{
    assert(enc_u8(x)[0] == x);
    assert(enc_u8(y)[0] == y);
}

/// Two u16 values with the same encoding are equal.
pub proof fn lemma_roundtrip_u16(x: u16, y: u16)
    requires
        enc_u16(x) == enc_u16(y),
    ensures
        x == y,
{
    assert(be16(x)[0] == be16(y)[0] && be16(x)[1] == be16(y)[1]);
    assert((((x >> 8) & 0xff) as u8 == ((y >> 8) & 0xff) as u8 && (x & 0xff) as u8 == (y
        & 0xff) as u8) ==> x == y) by (bit_vector);
}

/// Two u32 values with the same encoding are equal.
pub proof fn lemma_roundtrip_u32(x: u32, y: u32)
    requires
        enc_u32(x) == enc_u32(y),
    ensures
        x == y,
{
    assert(be32(x)[0] == be32(y)[0] && be32(x)[1] == be32(y)[1] && be32(x)[2] == be32(y)[2] && be32(
        x,
    )[3] == be32(y)[3]);
    assert((((x >> 24) & 0xff) as u8 == ((y >> 24) & 0xff) as u8 && ((x >> 16) & 0xff) as u8 == ((y
        >> 16) & 0xff) as u8 && ((x >> 8) & 0xff) as u8 == ((y >> 8) & 0xff) as u8 && (x
        & 0xff) as u8 == (y & 0xff) as u8) ==> x == y) by (bit_vector);
}

/// Two u64 values with the same encoding are equal.
pub proof fn lemma_roundtrip_u64(x: u64, y: u64)
    requires
        enc_u64(x) == enc_u64(y),
    ensures
        x == y,
{
    assert forall|i: int| 0 <= i < 8 implies be64(x)[i] == be64(y)[i] by {
    }
    assert((((x >> 56) & 0xff) as u8 == ((y >> 56) & 0xff) as u8 && ((x >> 48) & 0xff) as u8 == ((y
        >> 48) & 0xff) as u8 && ((x >> 40) & 0xff) as u8 == ((y >> 40) & 0xff) as u8 && ((x >> 32)
        & 0xff) as u8 == ((y >> 32) & 0xff) as u8 && ((x >> 24) & 0xff) as u8 == ((y >> 24)
        & 0xff) as u8 && ((x >> 16) & 0xff) as u8 == ((y >> 16) & 0xff) as u8 && ((x >> 8)
        & 0xff) as u8 == ((y >> 8) & 0xff) as u8 && (x & 0xff) as u8 == (y & 0xff) as u8) ==> x
        == y) by (bit_vector);
}

/// Two u128 values with the same encoding are equal.
pub proof fn lemma_roundtrip_u128(x: u128, y: u128)
    requires
        enc_u128(x) == enc_u128(y),
    ensures
        x == y,
{
    assert forall|i: int| 0 <= i < 16 implies be128(x)[i] == be128(y)[i] by {
    }
    assert((((x >> 120) & 0xff) as u8 == ((y >> 120) & 0xff) as u8 && ((x >> 112) & 0xff) as u8 == (
    (y >> 112) & 0xff) as u8 && ((x >> 104) & 0xff) as u8 == ((y >> 104) & 0xff) as u8 && ((x >> 96)
        & 0xff) as u8 == ((y >> 96) & 0xff) as u8 && ((x >> 88) & 0xff) as u8 == ((y >> 88)
        & 0xff) as u8 && ((x >> 80) & 0xff) as u8 == ((y >> 80) & 0xff) as u8 && ((x >> 72)
        & 0xff) as u8 == ((y >> 72) & 0xff) as u8 && ((x >> 64) & 0xff) as u8 == ((y >> 64)
        & 0xff) as u8 && ((x >> 56) & 0xff) as u8 == ((y >> 56) & 0xff) as u8 && ((x >> 48)
        & 0xff) as u8 == ((y >> 48) & 0xff) as u8 && ((x >> 40) & 0xff) as u8 == ((y >> 40)
        & 0xff) as u8 && ((x >> 32) & 0xff) as u8 == ((y >> 32) & 0xff) as u8 && ((x >> 24)
        & 0xff) as u8 == ((y >> 24) & 0xff) as u8 && ((x >> 16) & 0xff) as u8 == ((y >> 16)
        & 0xff) as u8 && ((x >> 8) & 0xff) as u8 == ((y >> 8) & 0xff) as u8 && (x & 0xff) as u8 == (
    y & 0xff) as u8) ==> x == y) by (bit_vector);
}

/// Two signed values with the same encoding are equal: the offset-binary
/// shift is one-to-one.
pub proof fn lemma_roundtrip_i8(x: i8, y: i8)
    requires
        enc_i8(x) == enc_i8(y),
    ensures
        x == y,
{
    lemma_roundtrip_u8((x + 0x80) as u8, (y + 0x80) as u8);
}

pub proof fn lemma_roundtrip_i16(x: i16, y: i16)
    requires
        enc_i16(x) == enc_i16(y),
    ensures
        x == y,
{
    lemma_roundtrip_u16((x + 0x8000) as u16, (y + 0x8000) as u16);
}

pub proof fn lemma_roundtrip_i32(x: i32, y: i32)
    requires
        enc_i32(x) == enc_i32(y),
    ensures
        x == y,
{
    lemma_roundtrip_u32((x + 0x8000_0000) as u32, (y + 0x8000_0000) as u32);
}

pub proof fn lemma_roundtrip_i64(x: i64, y: i64)
    requires
        enc_i64(x) == enc_i64(y),
    ensures
        x == y,
{
    lemma_roundtrip_u64((x + 0x8000_0000_0000_0000) as u64, (y + 0x8000_0000_0000_0000) as u64);
}

pub proof fn lemma_roundtrip_i128(x: i128, y: i128)
    requires
        enc_i128(x) == enc_i128(y),
    ensures
        x == y,
{
    lemma_roundtrip_u128(
        (x + 0x8000_0000_0000_0000_0000_0000_0000_0000) as u128,
        (y + 0x8000_0000_0000_0000_0000_0000_0000_0000) as u128,
    );
}

/// Two chars with the same encoding are the same char.
pub proof fn lemma_roundtrip_char(x: char, y: char)
    requires
        enc_char(x) == enc_char(y),
    ensures
        x == y,
{
    lemma_roundtrip_u32(x as u32, y as u32);
}

/// Two binary32 patterns with the same encoding denote the same normalised
/// value: the round trip loses only the NaN payload and the zero sign.
pub proof fn lemma_roundtrip_f32_bits(x: u32, y: u32)
    requires
        enc_f32_bits(x) == enc_f32_bits(y),
    ensures
        f32_norm(x) == f32_norm(y),
{
    lemma_roundtrip_u32(crate::enc::f32_key(f32_norm(x)), crate::enc::f32_key(f32_norm(y)));
    let a = f32_norm(x);
    let b = f32_norm(y);
    assert(crate::enc::f32_key(a) == crate::enc::f32_key(b) ==> a == b) by (bit_vector);
}

/// The binary64 version of the same statement.
pub proof fn lemma_roundtrip_f64_bits(x: u64, y: u64)
    requires
        enc_f64_bits(x) == enc_f64_bits(y),
    ensures
        f64_norm(x) == f64_norm(y),
{
    lemma_roundtrip_u64(crate::enc::f64_key(f64_norm(x)), crate::enc::f64_key(f64_norm(y)));
    let a = f64_norm(x);
    let b = f64_norm(y);
    assert(crate::enc::f64_key(a) == crate::enc::f64_key(b) ==> a == b) by (bit_vector);
}

// ---------------------------------------------------------------------------
// Byte strings: self-delimitation and round trip
// ---------------------------------------------------------------------------

/// Parsing the groups of a non-empty byte string back out of a longer
/// stream finds exactly the string, whatever follows it.
proof fn lemma_groups_self_delimiting(v: Seq<u8>, rest: Seq<u8>)
    requires
        v.len() > 0,
    ensures
        dec_groups(enc_groups(v) + rest) == (BytesDecode::Found {
            content: v,
            used: enc_groups(v).len() as int,
        }),
        enc_groups(v).len() == 9 * ((v.len() + 7) / 8),
    decreases v.len(),
{
    let s = enc_groups(v) + rest;
    if v.len() <= 8 {
        assert(enc_groups(v) == pad8(v).push(v.len() as u8));
        assert(s.len() >= 9);
        assert(s[8] == v.len() as u8);
        assert(s.take(v.len() as int) =~= v);
    } else {
        assert(enc_groups(v) == v.take(8).push(9u8) + enc_groups(v.skip(8)));
        assert(s.len() >= 9);
        assert(s[8] == 9);
        lemma_groups_self_delimiting(v.skip(8), rest);
        assert(s.skip(9) =~= enc_groups(v.skip(8)) + rest);
        assert(s.take(8) + v.skip(8) =~= v);
    }
}

/// Decoding the encoding of a byte string, with anything appended, finds
/// exactly that string: byte strings are self-delimiting, and the codec
/// round-trips them.
pub proof fn lemma_roundtrip_bytes(v: Seq<u8>, rest: Seq<u8>)
    ensures
        dec_bytes(enc_bytes(v) + rest) == (BytesDecode::Found {
            content: v,
            used: enc_bytes(v).len() as int,
        }),
{
    let s = enc_bytes(v) + rest;
    if v.len() == 0 {
        assert(s[0] == 0);
        assert(dec_bytes(s) == BytesDecode::Found { content: Seq::<u8>::empty(), used: 1 });
        assert(v =~= Seq::<u8>::empty());
    } else {
        assert(s[0] == 1);
        lemma_groups_self_delimiting(v, rest);
        assert(s.skip(1) =~= enc_groups(v) + rest);
    }
}

/// Two byte strings with the same encoding are equal.
pub proof fn lemma_roundtrip_bytes_eq(v: Seq<u8>, w: Seq<u8>)
    requires
        enc_bytes(v) == enc_bytes(w),
    ensures
        v == w,
{
    lemma_roundtrip_bytes(v, Seq::empty());
    lemma_roundtrip_bytes(w, Seq::empty());
}

/// Two texts with the same encoding are the same text.
pub proof fn lemma_roundtrip_str(v: Seq<char>, w: Seq<char>)
    requires
        enc_str(v) == enc_str(w),
    ensures
        v == w,
{
    lemma_roundtrip_bytes_eq(vstd::utf8::encode_utf8(v), vstd::utf8::encode_utf8(w));
    vstd::utf8::encode_utf8_decode_utf8(v);
    vstd::utf8::encode_utf8_decode_utf8(w);
}

/// No byte-string encoding is a proper prefix of another: the framing
/// decides where the value ends.
pub proof fn lemma_enc_bytes_prefix_free(v: Seq<u8>, w: Seq<u8>)
    ensures
        !proper_prefix(enc_bytes(v), enc_bytes(w)),
{
    let ev = enc_bytes(v);
    let ew = enc_bytes(w);
    if proper_prefix(ev, ew) {
        let rest = ew.skip(ev.len() as int);
        assert(ew =~= ev + rest);
        lemma_roundtrip_bytes(w, Seq::empty());
        lemma_roundtrip_bytes(v, rest);
        assert(ew + Seq::<u8>::empty() =~= ev + rest);
    }
}


// ---------------------------------------------------------------------------
// Order correspondence: integers
//
// Lexicographic comparison of the encodings equals numeric comparison of
// the values.
// ---------------------------------------------------------------------------

/// One byte: order is immediate.
pub proof fn lemma_order_u8(x: u8, y: u8)
    ensures
        lex_lt(enc_u8(x), enc_u8(y)) <==> x < y,
{
    let a = enc_u8(x);
    let b = enc_u8(y);
    assert(a[0] == x && b[0] == y);
    assert(a.drop_first().len() == 0 && b.drop_first().len() == 0);
    assert(lex_lt(a.drop_first(), b.drop_first()) == false);
}

/// Big-endian byte order equals numeric order for u16.
pub proof fn lemma_order_u16(x: u16, y: u16)
    ensures
        lex_lt(enc_u16(x), enc_u16(y)) <==> x < y,
{
    let a0 = be16(x);
    let b0 = be16(y);
    let a1 = a0.drop_first();
    let b1 = b0.drop_first();
    assert(a0[0] == a0[0] && b0[0] == b0[0]);
    assert(a1[0] == a0[1] && b1[0] == b0[1]);
    assert(a1.drop_first().len() == 0 && b1.drop_first().len() == 0);
    assert(lex_lt(a1.drop_first(), b1.drop_first()) == false);
    assert(lex_lt(a1, b1) == (a1[0] < b1[0]));
    assert(lex_lt(a0, b0) == (a0[0] < b0[0] || (a0[0] == b0[0] && lex_lt(a1, b1))));
    assert((((((x >> 8) & 0xff) as u8) < (((y >> 8) & 0xff) as u8) || ((((x >> 8) & 0xff) as u8) == (((y >> 8) & 0xff) as u8) && (((x & 0xff) as u8) < ((y & 0xff) as u8))))) == (x < y)) by (bit_vector);
    assert(a0[0] == (((x >> 8) & 0xff) as u8) && b0[0] == (((y >> 8) & 0xff) as u8));
    assert(a0[1] == ((x & 0xff) as u8) && b0[1] == ((y & 0xff) as u8));
}

/// Big-endian byte order equals numeric order for u32.
pub proof fn lemma_order_u32(x: u32, y: u32)
    ensures
        lex_lt(enc_u32(x), enc_u32(y)) <==> x < y,
{
    let a0 = be32(x);
    let b0 = be32(y);
    let a1 = a0.drop_first();
    let b1 = b0.drop_first();
    let a2 = a1.drop_first();
    let b2 = b1.drop_first();
    let a3 = a2.drop_first();
    let b3 = b2.drop_first();
    assert(a0[0] == a0[0] && b0[0] == b0[0]);
    assert(a1[0] == a0[1] && b1[0] == b0[1]);
    assert(a2[0] == a0[2] && b2[0] == b0[2]);
    assert(a3[0] == a0[3] && b3[0] == b0[3]);
    assert(a3.drop_first().len() == 0 && b3.drop_first().len() == 0);
    assert(lex_lt(a3.drop_first(), b3.drop_first()) == false);
    assert(lex_lt(a3, b3) == (a3[0] < b3[0]));
    assert(lex_lt(a2, b2) == (a2[0] < b2[0] || (a2[0] == b2[0] && lex_lt(a3, b3))));
    assert(lex_lt(a1, b1) == (a1[0] < b1[0] || (a1[0] == b1[0] && lex_lt(a2, b2))));
    assert(lex_lt(a0, b0) == (a0[0] < b0[0] || (a0[0] == b0[0] && lex_lt(a1, b1))));
    assert((((((x >> 24) & 0xff) as u8) < (((y >> 24) & 0xff) as u8) || ((((x >> 24) & 0xff) as u8) == (((y >> 24) & 0xff) as u8) && ((((x >> 16) & 0xff) as u8) < (((y >> 16) & 0xff) as u8) || ((((x >> 16) & 0xff) as u8) == (((y >> 16) & 0xff) as u8) && ((((x >> 8) & 0xff) as u8) < (((y >> 8) & 0xff) as u8) || ((((x >> 8) & 0xff) as u8) == (((y >> 8) & 0xff) as u8) && (((x & 0xff) as u8) < ((y & 0xff) as u8))))))))) == (x < y)) by (bit_vector);
    assert(a0[0] == (((x >> 24) & 0xff) as u8) && b0[0] == (((y >> 24) & 0xff) as u8));
    assert(a0[1] == (((x >> 16) & 0xff) as u8) && b0[1] == (((y >> 16) & 0xff) as u8));
    assert(a0[2] == (((x >> 8) & 0xff) as u8) && b0[2] == (((y >> 8) & 0xff) as u8));
    assert(a0[3] == ((x & 0xff) as u8) && b0[3] == ((y & 0xff) as u8));
}

/// Big-endian byte order equals numeric order for u64.
pub proof fn lemma_order_u64(x: u64, y: u64)
    ensures
        lex_lt(enc_u64(x), enc_u64(y)) <==> x < y,
{
    let a0 = be64(x);
    let b0 = be64(y);
    let a1 = a0.drop_first();
    let b1 = b0.drop_first();
    let a2 = a1.drop_first();
    let b2 = b1.drop_first();
    let a3 = a2.drop_first();
    let b3 = b2.drop_first();
    let a4 = a3.drop_first();
    let b4 = b3.drop_first();
    let a5 = a4.drop_first();
    let b5 = b4.drop_first();
    let a6 = a5.drop_first();
    let b6 = b5.drop_first();
    let a7 = a6.drop_first();
    let b7 = b6.drop_first();
    assert(a0[0] == a0[0] && b0[0] == b0[0]);
    assert(a1[0] == a0[1] && b1[0] == b0[1]);
    assert(a2[0] == a0[2] && b2[0] == b0[2]);
    assert(a3[0] == a0[3] && b3[0] == b0[3]);
    assert(a4[0] == a0[4] && b4[0] == b0[4]);
    assert(a5[0] == a0[5] && b5[0] == b0[5]);
    assert(a6[0] == a0[6] && b6[0] == b0[6]);
    assert(a7[0] == a0[7] && b7[0] == b0[7]);
    assert(a7.drop_first().len() == 0 && b7.drop_first().len() == 0);
    assert(lex_lt(a7.drop_first(), b7.drop_first()) == false);
    assert(lex_lt(a7, b7) == (a7[0] < b7[0]));
    assert(lex_lt(a6, b6) == (a6[0] < b6[0] || (a6[0] == b6[0] && lex_lt(a7, b7))));
    assert(lex_lt(a5, b5) == (a5[0] < b5[0] || (a5[0] == b5[0] && lex_lt(a6, b6))));
    assert(lex_lt(a4, b4) == (a4[0] < b4[0] || (a4[0] == b4[0] && lex_lt(a5, b5))));
    assert(lex_lt(a3, b3) == (a3[0] < b3[0] || (a3[0] == b3[0] && lex_lt(a4, b4))));
    assert(lex_lt(a2, b2) == (a2[0] < b2[0] || (a2[0] == b2[0] && lex_lt(a3, b3))));
    assert(lex_lt(a1, b1) == (a1[0] < b1[0] || (a1[0] == b1[0] && lex_lt(a2, b2))));
    assert(lex_lt(a0, b0) == (a0[0] < b0[0] || (a0[0] == b0[0] && lex_lt(a1, b1))));
    assert((((((x >> 56) & 0xff) as u8) < (((y >> 56) & 0xff) as u8) || ((((x >> 56) & 0xff) as u8) == (((y >> 56) & 0xff) as u8) && ((((x >> 48) & 0xff) as u8) < (((y >> 48) & 0xff) as u8) || ((((x >> 48) & 0xff) as u8) == (((y >> 48) & 0xff) as u8) && ((((x >> 40) & 0xff) as u8) < (((y >> 40) & 0xff) as u8) || ((((x >> 40) & 0xff) as u8) == (((y >> 40) & 0xff) as u8) && ((((x >> 32) & 0xff) as u8) < (((y >> 32) & 0xff) as u8) || ((((x >> 32) & 0xff) as u8) == (((y >> 32) & 0xff) as u8) && ((((x >> 24) & 0xff) as u8) < (((y >> 24) & 0xff) as u8) || ((((x >> 24) & 0xff) as u8) == (((y >> 24) & 0xff) as u8) && ((((x >> 16) & 0xff) as u8) < (((y >> 16) & 0xff) as u8) || ((((x >> 16) & 0xff) as u8) == (((y >> 16) & 0xff) as u8) && ((((x >> 8) & 0xff) as u8) < (((y >> 8) & 0xff) as u8) || ((((x >> 8) & 0xff) as u8) == (((y >> 8) & 0xff) as u8) && (((x & 0xff) as u8) < ((y & 0xff) as u8))))))))))))))))) == (x < y)) by (bit_vector);
    assert(a0[0] == (((x >> 56) & 0xff) as u8) && b0[0] == (((y >> 56) & 0xff) as u8));
    assert(a0[1] == (((x >> 48) & 0xff) as u8) && b0[1] == (((y >> 48) & 0xff) as u8));
    assert(a0[2] == (((x >> 40) & 0xff) as u8) && b0[2] == (((y >> 40) & 0xff) as u8));
    assert(a0[3] == (((x >> 32) & 0xff) as u8) && b0[3] == (((y >> 32) & 0xff) as u8));
    assert(a0[4] == (((x >> 24) & 0xff) as u8) && b0[4] == (((y >> 24) & 0xff) as u8));
    assert(a0[5] == (((x >> 16) & 0xff) as u8) && b0[5] == (((y >> 16) & 0xff) as u8));
    assert(a0[6] == (((x >> 8) & 0xff) as u8) && b0[6] == (((y >> 8) & 0xff) as u8));
    assert(a0[7] == ((x & 0xff) as u8) && b0[7] == ((y & 0xff) as u8));
}

/// Big-endian byte order equals numeric order for u128.
pub proof fn lemma_order_u128(x: u128, y: u128)
    ensures
        lex_lt(enc_u128(x), enc_u128(y)) <==> x < y,
{
    let a0 = be128(x);
    let b0 = be128(y);
    let a1 = a0.drop_first();
    let b1 = b0.drop_first();
    let a2 = a1.drop_first();
    let b2 = b1.drop_first();
    let a3 = a2.drop_first();
    let b3 = b2.drop_first();
    let a4 = a3.drop_first();
    let b4 = b3.drop_first();
    let a5 = a4.drop_first();
    let b5 = b4.drop_first();
    let a6 = a5.drop_first();
    let b6 = b5.drop_first();
    let a7 = a6.drop_first();
    let b7 = b6.drop_first();
    let a8 = a7.drop_first();
    let b8 = b7.drop_first();
    let a9 = a8.drop_first();
    let b9 = b8.drop_first();
    let a10 = a9.drop_first();
    let b10 = b9.drop_first();
    let a11 = a10.drop_first();
    let b11 = b10.drop_first();
    let a12 = a11.drop_first();
    let b12 = b11.drop_first();
    let a13 = a12.drop_first();
    let b13 = b12.drop_first();
    let a14 = a13.drop_first();
    let b14 = b13.drop_first();
    let a15 = a14.drop_first();
    let b15 = b14.drop_first();
    assert(a0[0] == a0[0] && b0[0] == b0[0]);
    assert(a1[0] == a0[1] && b1[0] == b0[1]);
    assert(a2[0] == a0[2] && b2[0] == b0[2]);
    assert(a3[0] == a0[3] && b3[0] == b0[3]);
    assert(a4[0] == a0[4] && b4[0] == b0[4]);
    assert(a5[0] == a0[5] && b5[0] == b0[5]);
    assert(a6[0] == a0[6] && b6[0] == b0[6]);
    assert(a7[0] == a0[7] && b7[0] == b0[7]);
    assert(a8[0] == a0[8] && b8[0] == b0[8]);
    assert(a9[0] == a0[9] && b9[0] == b0[9]);
    assert(a10[0] == a0[10] && b10[0] == b0[10]);
    assert(a11[0] == a0[11] && b11[0] == b0[11]);
    assert(a12[0] == a0[12] && b12[0] == b0[12]);
    assert(a13[0] == a0[13] && b13[0] == b0[13]);
    assert(a14[0] == a0[14] && b14[0] == b0[14]);
    assert(a15[0] == a0[15] && b15[0] == b0[15]);
    assert(a15.drop_first().len() == 0 && b15.drop_first().len() == 0);
    assert(lex_lt(a15.drop_first(), b15.drop_first()) == false);
    assert(lex_lt(a15, b15) == (a15[0] < b15[0]));
    assert(lex_lt(a14, b14) == (a14[0] < b14[0] || (a14[0] == b14[0] && lex_lt(a15, b15))));
    assert(lex_lt(a13, b13) == (a13[0] < b13[0] || (a13[0] == b13[0] && lex_lt(a14, b14))));
    assert(lex_lt(a12, b12) == (a12[0] < b12[0] || (a12[0] == b12[0] && lex_lt(a13, b13))));
    assert(lex_lt(a11, b11) == (a11[0] < b11[0] || (a11[0] == b11[0] && lex_lt(a12, b12))));
    assert(lex_lt(a10, b10) == (a10[0] < b10[0] || (a10[0] == b10[0] && lex_lt(a11, b11))));
    assert(lex_lt(a9, b9) == (a9[0] < b9[0] || (a9[0] == b9[0] && lex_lt(a10, b10))));
    assert(lex_lt(a8, b8) == (a8[0] < b8[0] || (a8[0] == b8[0] && lex_lt(a9, b9))));
    assert(lex_lt(a7, b7) == (a7[0] < b7[0] || (a7[0] == b7[0] && lex_lt(a8, b8))));
    assert(lex_lt(a6, b6) == (a6[0] < b6[0] || (a6[0] == b6[0] && lex_lt(a7, b7))));
    assert(lex_lt(a5, b5) == (a5[0] < b5[0] || (a5[0] == b5[0] && lex_lt(a6, b6))));
    assert(lex_lt(a4, b4) == (a4[0] < b4[0] || (a4[0] == b4[0] && lex_lt(a5, b5))));
    assert(lex_lt(a3, b3) == (a3[0] < b3[0] || (a3[0] == b3[0] && lex_lt(a4, b4))));
    assert(lex_lt(a2, b2) == (a2[0] < b2[0] || (a2[0] == b2[0] && lex_lt(a3, b3))));
    assert(lex_lt(a1, b1) == (a1[0] < b1[0] || (a1[0] == b1[0] && lex_lt(a2, b2))));
    assert(lex_lt(a0, b0) == (a0[0] < b0[0] || (a0[0] == b0[0] && lex_lt(a1, b1))));
    assert((((((x >> 120) & 0xff) as u8) < (((y >> 120) & 0xff) as u8) || ((((x >> 120) & 0xff) as u8) == (((y >> 120) & 0xff) as u8) && ((((x >> 112) & 0xff) as u8) < (((y >> 112) & 0xff) as u8) || ((((x >> 112) & 0xff) as u8) == (((y >> 112) & 0xff) as u8) && ((((x >> 104) & 0xff) as u8) < (((y >> 104) & 0xff) as u8) || ((((x >> 104) & 0xff) as u8) == (((y >> 104) & 0xff) as u8) && ((((x >> 96) & 0xff) as u8) < (((y >> 96) & 0xff) as u8) || ((((x >> 96) & 0xff) as u8) == (((y >> 96) & 0xff) as u8) && ((((x >> 88) & 0xff) as u8) < (((y >> 88) & 0xff) as u8) || ((((x >> 88) & 0xff) as u8) == (((y >> 88) & 0xff) as u8) && ((((x >> 80) & 0xff) as u8) < (((y >> 80) & 0xff) as u8) || ((((x >> 80) & 0xff) as u8) == (((y >> 80) & 0xff) as u8) && ((((x >> 72) & 0xff) as u8) < (((y >> 72) & 0xff) as u8) || ((((x >> 72) & 0xff) as u8) == (((y >> 72) & 0xff) as u8) && ((((x >> 64) & 0xff) as u8) < (((y >> 64) & 0xff) as u8) || ((((x >> 64) & 0xff) as u8) == (((y >> 64) & 0xff) as u8) && ((((x >> 56) & 0xff) as u8) < (((y >> 56) & 0xff) as u8) || ((((x >> 56) & 0xff) as u8) == (((y >> 56) & 0xff) as u8) && ((((x >> 48) & 0xff) as u8) < (((y >> 48) & 0xff) as u8) || ((((x >> 48) & 0xff) as u8) == (((y >> 48) & 0xff) as u8) && ((((x >> 40) & 0xff) as u8) < (((y >> 40) & 0xff) as u8) || ((((x >> 40) & 0xff) as u8) == (((y >> 40) & 0xff) as u8) && ((((x >> 32) & 0xff) as u8) < (((y >> 32) & 0xff) as u8) || ((((x >> 32) & 0xff) as u8) == (((y >> 32) & 0xff) as u8) && ((((x >> 24) & 0xff) as u8) < (((y >> 24) & 0xff) as u8) || ((((x >> 24) & 0xff) as u8) == (((y >> 24) & 0xff) as u8) && ((((x >> 16) & 0xff) as u8) < (((y >> 16) & 0xff) as u8) || ((((x >> 16) & 0xff) as u8) == (((y >> 16) & 0xff) as u8) && ((((x >> 8) & 0xff) as u8) < (((y >> 8) & 0xff) as u8) || ((((x >> 8) & 0xff) as u8) == (((y >> 8) & 0xff) as u8) && (((x & 0xff) as u8) < ((y & 0xff) as u8))))))))))))))))))))))))))))))))) == (x < y)) by (bit_vector);
    assert(a0[0] == (((x >> 120) & 0xff) as u8) && b0[0] == (((y >> 120) & 0xff) as u8));
    assert(a0[1] == (((x >> 112) & 0xff) as u8) && b0[1] == (((y >> 112) & 0xff) as u8));
    assert(a0[2] == (((x >> 104) & 0xff) as u8) && b0[2] == (((y >> 104) & 0xff) as u8));
    assert(a0[3] == (((x >> 96) & 0xff) as u8) && b0[3] == (((y >> 96) & 0xff) as u8));
    assert(a0[4] == (((x >> 88) & 0xff) as u8) && b0[4] == (((y >> 88) & 0xff) as u8));
    assert(a0[5] == (((x >> 80) & 0xff) as u8) && b0[5] == (((y >> 80) & 0xff) as u8));
    assert(a0[6] == (((x >> 72) & 0xff) as u8) && b0[6] == (((y >> 72) & 0xff) as u8));
    assert(a0[7] == (((x >> 64) & 0xff) as u8) && b0[7] == (((y >> 64) & 0xff) as u8));
    assert(a0[8] == (((x >> 56) & 0xff) as u8) && b0[8] == (((y >> 56) & 0xff) as u8));
    assert(a0[9] == (((x >> 48) & 0xff) as u8) && b0[9] == (((y >> 48) & 0xff) as u8));
    assert(a0[10] == (((x >> 40) & 0xff) as u8) && b0[10] == (((y >> 40) & 0xff) as u8));
    assert(a0[11] == (((x >> 32) & 0xff) as u8) && b0[11] == (((y >> 32) & 0xff) as u8));
    assert(a0[12] == (((x >> 24) & 0xff) as u8) && b0[12] == (((y >> 24) & 0xff) as u8));
    assert(a0[13] == (((x >> 16) & 0xff) as u8) && b0[13] == (((y >> 16) & 0xff) as u8));
    assert(a0[14] == (((x >> 8) & 0xff) as u8) && b0[14] == (((y >> 8) & 0xff) as u8));
    assert(a0[15] == ((x & 0xff) as u8) && b0[15] == ((y & 0xff) as u8));
}


/// The offset-binary shift keeps numeric order, so signed encodings order
/// like the values.
pub proof fn lemma_order_i8(x: i8, y: i8)
    ensures
        lex_lt(enc_i8(x), enc_i8(y)) <==> x < y,
{
    lemma_order_u8((x + 0x80) as u8, (y + 0x80) as u8);
}

pub proof fn lemma_order_i16(x: i16, y: i16)
    ensures
        lex_lt(enc_i16(x), enc_i16(y)) <==> x < y,
{
    lemma_order_u16((x + 0x8000) as u16, (y + 0x8000) as u16);
}

pub proof fn lemma_order_i32(x: i32, y: i32)
    ensures
        lex_lt(enc_i32(x), enc_i32(y)) <==> x < y,
{
    lemma_order_u32((x + 0x8000_0000) as u32, (y + 0x8000_0000) as u32);
}

pub proof fn lemma_order_i64(x: i64, y: i64)
    ensures
        lex_lt(enc_i64(x), enc_i64(y)) <==> x < y,
{
    lemma_order_u64((x + 0x8000_0000_0000_0000) as u64, (y + 0x8000_0000_0000_0000) as u64);
}

pub proof fn lemma_order_i128(x: i128, y: i128)
    ensures
        lex_lt(enc_i128(x), enc_i128(y)) <==> x < y,
{
    lemma_order_u128(
        (x + 0x8000_0000_0000_0000_0000_0000_0000_0000) as u128,
        (y + 0x8000_0000_0000_0000_0000_0000_0000_0000) as u128,
    );
}


// ---------------------------------------------------------------------------
// Order reversal and concatenation
// ---------------------------------------------------------------------------

/// Complementing every byte reverses the lexicographic order, for byte
/// strings of which neither is a proper prefix of the other.  Encodings of
/// one type are never proper prefixes of one another, so descending order
/// is exactly ascending order reversed.
pub proof fn lemma_flip_reverses_order(a: Seq<u8>, b: Seq<u8>)
    requires
        !proper_prefix(a, b),
        !proper_prefix(b, a),
    ensures
        lex_lt(flip_seq(a), flip_seq(b)) <==> lex_lt(b, a),
    decreases a.len(),
{
    let fa = flip_seq(a);
    let fb = flip_seq(b);
    if a.len() == 0 && b.len() == 0 {
        assert(fa.len() == 0 && fb.len() == 0);
    } else if a.len() == 0 {
        assert(a =~= b.take(a.len() as int));
        assert(proper_prefix(a, b));
    } else if b.len() == 0 {
        assert(b =~= a.take(b.len() as int));
        assert(proper_prefix(b, a));
    } else {
        assert(fa[0] == !a[0] && fb[0] == !b[0]);
        assert(fa.len() == a.len() && fb.len() == b.len());
        if a[0] == b[0] {
            assert(fa.drop_first() =~= flip_seq(a.drop_first()));
            assert(fb.drop_first() =~= flip_seq(b.drop_first()));
            if proper_prefix(a.drop_first(), b.drop_first()) {
                assert(a =~= b.take(a.len() as int));
                assert(proper_prefix(a, b));
            }
            if proper_prefix(b.drop_first(), a.drop_first()) {
                assert(b =~= a.take(b.len() as int));
                assert(proper_prefix(b, a));
            }
            lemma_flip_reverses_order(a.drop_first(), b.drop_first());
        } else {
            let x = a[0];
            let y = b[0];
            assert((!x < !y) == (y < x)) by (bit_vector);
            assert((!x == !y) == (x == y)) by (bit_vector);
        }
    }
}

/// Concatenability and order: when the front encodings are never proper
/// prefixes of one another, the order of two concatenations is decided by
/// the front parts, and by the back parts when the fronts are equal.  This
/// is how a tuple's encoding orders by its first differing field.
pub proof fn lemma_concat_order(ea1: Seq<u8>, eb1: Seq<u8>, ea2: Seq<u8>, eb2: Seq<u8>)
    requires
        ea1 == ea2 || (!proper_prefix(ea1, ea2) && !proper_prefix(ea2, ea1)),
    ensures
        lex_lt(ea1 + eb1, ea2 + eb2) <==> (if ea1 == ea2 {
            lex_lt(eb1, eb2)
        } else {
            lex_lt(ea1, ea2)
        }),
{
    if ea1 == ea2 {
        crate::order::lemma_lex_prepend(ea1, eb1, eb2);
        assert(ea1 + eb1 =~= ea2 + eb1);
    } else {
        lemma_lex_characterize(ea1, ea2);
        let c = common_len(ea1, ea2);
        if c == ea1.len() {
            if c == ea2.len() {
                assert(ea1 =~= ea2);
            } else {
                assert(ea1 =~= ea2.take(ea1.len() as int));
                assert(proper_prefix(ea1, ea2));
            }
        }
        if c == ea2.len() {
            assert(ea2 =~= ea1.take(ea2.len() as int));
            assert(proper_prefix(ea2, ea1));
        }
        assert(c < ea1.len() && c < ea2.len());
        assert(ea1[c] != ea2[c]);
        let s1 = ea1 + eb1;
        let s2 = ea2 + eb2;
        assert(forall|i: int| 0 <= i < c ==> s1[i] == s2[i]);
        assert(s1[c] == ea1[c] && s2[c] == ea2[c]);
        if ea1[c] < ea2[c] {
            crate::order::lemma_lex_diff(s1, s2, c);
            crate::order::lemma_lex_diff(ea1, ea2, c);
            lemma_lex_total(s1, s2);
        } else {
            crate::order::lemma_lex_diff(s2, s1, c);
            crate::order::lemma_lex_diff(ea2, ea1, c);
            lemma_lex_total(s1, s2);
            lemma_lex_total(ea1, ea2);
        }
    }
}


// ---------------------------------------------------------------------------
// Order correspondence: byte strings
// ---------------------------------------------------------------------------

/// The padded group of a short tail: the string's bytes, then zeros.
proof fn lemma_pad8_index(s: Seq<u8>)
    requires
        s.len() <= 8,
    ensures
        pad8(s).len() == 8,
        forall|i: int| 0 <= i < s.len() ==> pad8(s)[i] == s[i],
        forall|i: int| s.len() <= i < 8 ==> pad8(s)[i] == 0,
{
}

/// The group encoding preserves strict lexicographic order.
proof fn lemma_groups_order_lt(a: Seq<u8>, b: Seq<u8>)
    requires
        a.len() > 0,
        b.len() > 0,
        lex_lt(a, b),
    ensures
        lex_lt(enc_groups(a), enc_groups(b)),
    decreases a.len(),
{
    lemma_lex_characterize(a, b);
    let c = common_len(a, b);
    let ea = enc_groups(a);
    let eb = enc_groups(b);
    if a.len() <= 8 && b.len() <= 8 {
        lemma_pad8_index(a);
        lemma_pad8_index(b);
        assert(ea == pad8(a).push(a.len() as u8));
        assert(eb == pad8(b).push(b.len() as u8));
        if c == a.len() {
            // a is a proper prefix of b
            lemma_lex_characterize(pad8(a), pad8(b));
            let d = common_len(pad8(a), pad8(b));
            if d == 8 {
                assert(forall|i: int| 0 <= i < 8 ==> ea[i] == eb[i]);
                assert(ea[8] == a.len() as u8 && eb[8] == b.len() as u8);
                crate::order::lemma_lex_diff(ea, eb, 8);
            } else {
                assert(pad8(a)[d] != pad8(b)[d]);
                assert(d >= a.len());
                assert(pad8(a)[d] == 0);
                assert(pad8(b)[d] != 0);
                assert(forall|i: int| 0 <= i < d ==> ea[i] == eb[i]);
                crate::order::lemma_lex_diff(ea, eb, d);
            }
        } else {
            assert(a[c] < b[c] && c < a.len() && c < b.len());
            assert(forall|i: int| 0 <= i < c ==> ea[i] == eb[i]);
            assert(ea[c] == a[c] && eb[c] == b[c]);
            crate::order::lemma_lex_diff(ea, eb, c);
        }
    } else if a.len() <= 8 {
        // b continues into further groups
        lemma_pad8_index(a);
        assert(ea == pad8(a).push(a.len() as u8));
        assert(eb == b.take(8).push(9u8) + enc_groups(b.skip(8)));
        assert(forall|i: int| 0 <= i < 8 ==> eb[i] == b[i]);
        assert(eb[8] == 9);
        lemma_groups_self_delimiting(b.skip(8), Seq::empty());
        assert(eb.len() >= 9);
        if c == a.len() {
            lemma_lex_characterize(pad8(a), b.take(8));
            let d = common_len(pad8(a), b.take(8));
            if d == 8 {
                assert(forall|i: int| 0 <= i < 8 ==> ea[i] == eb[i]);
                assert(ea[8] == a.len() as u8);
                assert(ea[8] < eb[8]);
                crate::order::lemma_lex_diff(ea, eb, 8);
            } else {
                assert(pad8(a)[d] != b.take(8)[d]);
                assert(d >= a.len());
                assert(pad8(a)[d] == 0);
                assert(eb[d] == b[d] && b.take(8)[d] == b[d]);
                assert(pad8(a)[d] == 0 && eb[d] != 0);
                assert(forall|i: int| 0 <= i < d ==> ea[i] == eb[i]);
                crate::order::lemma_lex_diff(ea, eb, d);
            }
        } else {
            assert(a[c] < b[c] && c < a.len());
            assert(forall|i: int| 0 <= i < c ==> ea[i] == eb[i]);
            assert(ea[c] == a[c] && eb[c] == b[c]);
            crate::order::lemma_lex_diff(ea, eb, c);
        }
    } else if b.len() <= 8 {
        // a continues into further groups, so the difference lies in b's range
        lemma_pad8_index(b);
        assert(ea == a.take(8).push(9u8) + enc_groups(a.skip(8)));
        assert(eb == pad8(b).push(b.len() as u8));
        assert(forall|i: int| 0 <= i < 8 ==> ea[i] == a[i]);
        lemma_groups_self_delimiting(a.skip(8), Seq::empty());
        assert(ea.len() >= 9);
        assert(c < a.len());
        if c == b.len() {
            assert(b =~= a.take(b.len() as int));
            assert(proper_prefix(b, a));
            crate::order::lemma_lex_prefix(b, a);
            lemma_lex_total(a, b);
        } else {
            assert(a[c] < b[c] && c < b.len());
            assert(forall|i: int| 0 <= i < c ==> ea[i] == eb[i]);
            assert(ea[c] == a[c] && eb[c] == b[c]);
            crate::order::lemma_lex_diff(ea, eb, c);
        }
    } else {
        // both have a full first group
        assert(ea == a.take(8).push(9u8) + enc_groups(a.skip(8)));
        assert(eb == b.take(8).push(9u8) + enc_groups(b.skip(8)));
        if c < 8 {
            assert(a[c] < b[c]);
            assert(forall|i: int| 0 <= i < 8 ==> ea[i] == a[i] && eb[i] == b[i]);
            lemma_groups_self_delimiting(a.skip(8), Seq::empty());
            lemma_groups_self_delimiting(b.skip(8), Seq::empty());
            assert(ea.len() >= 9 && eb.len() >= 9);
            crate::order::lemma_lex_diff(ea, eb, c);
        } else {
            assert(a.take(8) =~= b.take(8));
            assert(a =~= a.take(8) + a.skip(8));
            assert(b =~= a.take(8) + b.skip(8));
            crate::order::lemma_lex_prepend(a.take(8), a.skip(8), b.skip(8));
            lemma_groups_order_lt(a.skip(8), b.skip(8));
            assert(ea =~= a.take(8).push(9u8) + enc_groups(a.skip(8)));
            assert(eb =~= a.take(8).push(9u8) + enc_groups(b.skip(8)));
            crate::order::lemma_lex_prepend(
                a.take(8).push(9u8),
                enc_groups(a.skip(8)),
                enc_groups(b.skip(8)),
            );
        }
    }
}

/// One direction of the order correspondence.
proof fn lemma_enc_bytes_order_lt(a: Seq<u8>, b: Seq<u8>)
    requires
        lex_lt(a, b),
    ensures
        lex_lt(enc_bytes(a), enc_bytes(b)),
{
    if a.len() == 0 {
        assert(b.len() > 0);
        assert(enc_bytes(a)[0] == 0 && enc_bytes(b)[0] == 1);
        lemma_groups_self_delimiting(b, Seq::empty());
        crate::order::lemma_lex_diff(enc_bytes(a), enc_bytes(b), 0);
    } else {
        assert(b.len() > 0);
        lemma_groups_order_lt(a, b);
        assert(enc_bytes(a) =~= seq![1u8] + enc_groups(a));
        assert(enc_bytes(b) =~= seq![1u8] + enc_groups(b));
        crate::order::lemma_lex_prepend(seq![1u8], enc_groups(a), enc_groups(b));
    }
}

/// Order correspondence for byte strings: comparing two encodings byte for
/// byte gives exactly the comparison of the original strings.  Texts order
/// the same way, over their UTF-8 bytes.
pub proof fn lemma_enc_bytes_order(a: Seq<u8>, b: Seq<u8>)
    ensures
        lex_lt(enc_bytes(a), enc_bytes(b)) <==> lex_lt(a, b),
{
    if lex_lt(a, b) {
        lemma_enc_bytes_order_lt(a, b);
    }
    if lex_lt(enc_bytes(a), enc_bytes(b)) {
        lemma_lex_total(a, b);
        if a == b {
            lemma_lex_total(enc_bytes(a), enc_bytes(b));
        }
        if lex_lt(b, a) {
            lemma_enc_bytes_order_lt(b, a);
            lemma_lex_total(enc_bytes(a), enc_bytes(b));
        }
    }
}

} // verus!


