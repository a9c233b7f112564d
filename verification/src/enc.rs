use vstd::prelude::*;

verus! {

// ---------------------------------------------------------------------------
// Bit flipping
//
// Descending order is obtained by complementing every byte that is written or
// read.  `flip_seq` is the specification-level image of that operation.
// ---------------------------------------------------------------------------

/// The byte sequence `s` with every byte complemented.
pub open spec fn flip_seq(s: Seq<u8>) -> Seq<u8> {
    s.map_values(|b: u8| !b)
}

/// `s` complemented when `flip` is set, `s` itself otherwise.
pub open spec fn maybe_flip(s: Seq<u8>, flip: bool) -> Seq<u8> {
    if flip {
        flip_seq(s)
    } else {
        s
    }
}

pub proof fn lemma_flip_seq_involution(s: Seq<u8>)
    ensures
        flip_seq(flip_seq(s)) == s,
{
    assert forall|i: int| 0 <= i < s.len() implies flip_seq(flip_seq(s))[i] == s[i] by {
        let b = s[i];
        assert(!(!b) == b) by (bit_vector);
    }
    assert(flip_seq(flip_seq(s)) =~= s);
}

pub proof fn lemma_maybe_flip_len(s: Seq<u8>, f: bool)
    ensures
        maybe_flip(s, f).len() == s.len(),
{
}

pub proof fn lemma_maybe_flip_skip(s: Seq<u8>, f: bool, n: int)
    requires
        0 <= n <= s.len(),
    ensures
        maybe_flip(s, f).skip(n) == maybe_flip(s.skip(n), f),
{
    assert(maybe_flip(s, f).skip(n) =~= maybe_flip(s.skip(n), f));
}

pub proof fn lemma_flip_seq_append(a: Seq<u8>, b: Seq<u8>)
    ensures
        flip_seq(a + b) == flip_seq(a) + flip_seq(b),
{
    assert(flip_seq(a + b) =~= flip_seq(a) + flip_seq(b));
}

/// Complementing a value before taking its big-endian bytes complements each
/// of the bytes.
pub proof fn lemma_be16_flip(v: u16)
    ensures
        be16(!v) == flip_seq(be16(v)),
{
    assert((((!v) >> 8) & 0xff) as u8 == !(((v >> 8) & 0xff) as u8) && ((!v) & 0xff) as u8 == !((v
        & 0xff) as u8)) by (bit_vector);
    assert(be16(!v) =~= flip_seq(be16(v)));
}

pub proof fn lemma_be32_flip(v: u32)
    ensures
        be32(!v) == flip_seq(be32(v)),
{
    assert((((!v) >> 24) & 0xff) as u8 == !(((v >> 24) & 0xff) as u8) && (((!v) >> 16) & 0xff) as u8
        == !(((v >> 16) & 0xff) as u8) && (((!v) >> 8) & 0xff) as u8 == !(((v >> 8) & 0xff) as u8)
        && ((!v) & 0xff) as u8 == !((v & 0xff) as u8)) by (bit_vector);
    assert(be32(!v) =~= flip_seq(be32(v)));
}

pub proof fn lemma_be64_flip(v: u64)
    ensures
        be64(!v) == flip_seq(be64(v)),
{
    assert((((!v) >> 56) & 0xff) as u8 == !(((v >> 56) & 0xff) as u8) && (((!v) >> 48) & 0xff) as u8
        == !(((v >> 48) & 0xff) as u8) && (((!v) >> 40) & 0xff) as u8 == !(((v >> 40)
        & 0xff) as u8) && (((!v) >> 32) & 0xff) as u8 == !(((v >> 32) & 0xff) as u8) && (((!v)
        >> 24) & 0xff) as u8 == !(((v >> 24) & 0xff) as u8) && (((!v) >> 16) & 0xff) as u8 == !(((v
        >> 16) & 0xff) as u8) && (((!v) >> 8) & 0xff) as u8 == !(((v >> 8) & 0xff) as u8) && ((!v)
        & 0xff) as u8 == !((v & 0xff) as u8)) by (bit_vector);
    assert(be64(!v) =~= flip_seq(be64(v)));
}

pub proof fn lemma_be128_flip(v: u128)
    ensures
        be128(!v) == flip_seq(be128(v)),
{
    assert((((!v) >> 120) & 0xff) as u8 == !(((v >> 120) & 0xff) as u8) && (((!v) >> 112)
        & 0xff) as u8 == !(((v >> 112) & 0xff) as u8) && (((!v) >> 104) & 0xff) as u8 == !(((v
        >> 104) & 0xff) as u8) && (((!v) >> 96) & 0xff) as u8 == !(((v >> 96) & 0xff) as u8) && (((
    !v) >> 88) & 0xff) as u8 == !(((v >> 88) & 0xff) as u8) && (((!v) >> 80) & 0xff) as u8 == !(((v
        >> 80) & 0xff) as u8) && (((!v) >> 72) & 0xff) as u8 == !(((v >> 72) & 0xff) as u8) && (((
    !v) >> 64) & 0xff) as u8 == !(((v >> 64) & 0xff) as u8) && (((!v) >> 56) & 0xff) as u8 == !(((v
        >> 56) & 0xff) as u8) && (((!v) >> 48) & 0xff) as u8 == !(((v >> 48) & 0xff) as u8) && (((
    !v) >> 40) & 0xff) as u8 == !(((v >> 40) & 0xff) as u8) && (((!v) >> 32) & 0xff) as u8 == !(((v
        >> 32) & 0xff) as u8) && (((!v) >> 24) & 0xff) as u8 == !(((v >> 24) & 0xff) as u8) && (((
    !v) >> 16) & 0xff) as u8 == !(((v >> 16) & 0xff) as u8) && (((!v) >> 8) & 0xff) as u8 == !(((v
        >> 8) & 0xff) as u8) && ((!v) & 0xff) as u8 == !((v & 0xff) as u8)) by (bit_vector);
    assert(be128(!v) =~= flip_seq(be128(v)));
}

// ---------------------------------------------------------------------------
// Big-endian views of the fixed-width unsigned integers
// ---------------------------------------------------------------------------

/// The two big-endian bytes of `v`.
pub open spec fn be16(v: u16) -> Seq<u8> {
    seq![((v >> 8) & 0xff) as u8, (v & 0xff) as u8]
}

/// The four big-endian bytes of `v`.
pub open spec fn be32(v: u32) -> Seq<u8> {
    seq![
        ((v >> 24) & 0xff) as u8,
        ((v >> 16) & 0xff) as u8,
        ((v >> 8) & 0xff) as u8,
        (v & 0xff) as u8,
    ]
}

/// The eight big-endian bytes of `v`.
pub open spec fn be64(v: u64) -> Seq<u8> {
    seq![
        ((v >> 56) & 0xff) as u8,
        ((v >> 48) & 0xff) as u8,
        ((v >> 40) & 0xff) as u8,
        ((v >> 32) & 0xff) as u8,
        ((v >> 24) & 0xff) as u8,
        ((v >> 16) & 0xff) as u8,
        ((v >> 8) & 0xff) as u8,
        (v & 0xff) as u8,
    ]
}

/// The sixteen big-endian bytes of `v`.
pub open spec fn be128(v: u128) -> Seq<u8> {
    seq![
        ((v >> 120) & 0xff) as u8,
        ((v >> 112) & 0xff) as u8,
        ((v >> 104) & 0xff) as u8,
        ((v >> 96) & 0xff) as u8,
        ((v >> 88) & 0xff) as u8,
        ((v >> 80) & 0xff) as u8,
        ((v >> 72) & 0xff) as u8,
        ((v >> 64) & 0xff) as u8,
        ((v >> 56) & 0xff) as u8,
        ((v >> 48) & 0xff) as u8,
        ((v >> 40) & 0xff) as u8,
        ((v >> 32) & 0xff) as u8,
        ((v >> 24) & 0xff) as u8,
        ((v >> 16) & 0xff) as u8,
        ((v >> 8) & 0xff) as u8,
        (v & 0xff) as u8,
    ]
}

// ---------------------------------------------------------------------------
// Scalar encodings (before any bit flipping)
// ---------------------------------------------------------------------------

/// `false` is one zero byte, `true` one 0x01 byte.
pub open spec fn enc_bool(v: bool) -> Seq<u8> {
    seq![if v { 1u8 } else { 0u8 }]
}

pub open spec fn enc_u8(v: u8) -> Seq<u8> {
    seq![v]
}

pub open spec fn enc_u16(v: u16) -> Seq<u8> {
    be16(v)
}

pub open spec fn enc_u32(v: u32) -> Seq<u8> {
    be32(v)
}

pub open spec fn enc_u64(v: u64) -> Seq<u8> {
    be64(v)
}

pub open spec fn enc_u128(v: u128) -> Seq<u8> {
    be128(v)
}

/// Signed integers are shifted into the unsigned range (offset binary): the
/// most significant bit of the two's-complement pattern is toggled, which is
/// the same as adding 2^(N-1).
pub open spec fn enc_i8(v: i8) -> Seq<u8> {
    enc_u8((v + 0x80) as u8)
}

pub open spec fn enc_i16(v: i16) -> Seq<u8> {
    enc_u16((v + 0x8000) as u16)
}

pub open spec fn enc_i32(v: i32) -> Seq<u8> {
    enc_u32((v + 0x8000_0000) as u32)
}

pub open spec fn enc_i64(v: i64) -> Seq<u8> {
    enc_u64((v + 0x8000_0000_0000_0000) as u64)
}

pub open spec fn enc_i128(v: i128) -> Seq<u8> {
    enc_u128((v + 0x8000_0000_0000_0000_0000_0000_0000_0000) as u128)
}

/// A char is encoded as its Unicode scalar value via the u32 rule.
pub open spec fn enc_char(c: char) -> Seq<u8> {
    enc_u32(c as u32)
}

// ---------------------------------------------------------------------------
// Binary32 / binary64 bit patterns
//
// The codec works on the IEEE-754 bit patterns.  NaN patterns are replaced by
// one canonical NaN and both zeros by +0.0; then sign-positive patterns get
// their sign bit set while sign-negative patterns are complemented, which maps
// the total order of the floats onto unsigned byte order.
// ---------------------------------------------------------------------------

/// The canonical binary32 NaN bit pattern (the one `f32::NAN` carries).
pub open spec fn f32_nan_bits() -> u32 {
    0x7fc0_0000
}

/// The canonical binary64 NaN bit pattern (the one `f64::NAN` carries).
pub open spec fn f64_nan_bits() -> u64 {
    0x7ff8_0000_0000_0000
}

/// Whether the binary32 pattern `u` denotes a NaN.
pub open spec fn f32_is_nan(u: u32) -> bool {
    (u & 0x7f80_0000) == 0x7f80_0000 && (u & 0x007f_ffff) != 0
}

/// Whether the binary64 pattern `u` denotes a NaN.
pub open spec fn f64_is_nan(u: u64) -> bool {
    (u & 0x7ff0_0000_0000_0000) == 0x7ff0_0000_0000_0000 && (u & 0x000f_ffff_ffff_ffff) != 0
}

/// Whether the binary32 pattern `u` denotes a zero of either sign.
pub open spec fn f32_is_zero(u: u32) -> bool {
    (u & 0x7fff_ffff) == 0
}

/// Whether the binary64 pattern `u` denotes a zero of either sign.
pub open spec fn f64_is_zero(u: u64) -> bool {
    (u & 0x7fff_ffff_ffff_ffff) == 0
}

/// The normalisation applied before a binary32 pattern is encoded.
pub open spec fn f32_norm(u: u32) -> u32 {
    if f32_is_nan(u) {
        f32_nan_bits()
    } else if f32_is_zero(u) {
        0
    } else {
        u
    }
}

/// The normalisation applied before a binary64 pattern is encoded.
pub open spec fn f64_norm(u: u64) -> u64 {
    if f64_is_nan(u) {
        f64_nan_bits()
    } else if f64_is_zero(u) {
        0
    } else {
        u
    }
}

/// The order-preserving transform of a normalised binary32 pattern.
pub open spec fn f32_key(u: u32) -> u32 {
    if u & 0x8000_0000 == 0 {
        u | 0x8000_0000
    } else {
        !u
    }
}

/// The order-preserving transform of a normalised binary64 pattern.
pub open spec fn f64_key(u: u64) -> u64 {
    if u & 0x8000_0000_0000_0000 == 0 {
        u | 0x8000_0000_0000_0000
    } else {
        !u
    }
}

/// The encoding of the binary32 value with bit pattern `u`.
pub open spec fn enc_f32_bits(u: u32) -> Seq<u8> {
    enc_u32(f32_key(f32_norm(u)))
}

/// The encoding of the binary64 value with bit pattern `u`.
pub open spec fn enc_f64_bits(u: u64) -> Seq<u8> {
    enc_u64(f64_key(f64_norm(u)))
}

// ---------------------------------------------------------------------------
// Byte strings
//
// An empty string is the single byte 0x00.  A non-empty string is 0x01
// followed by 9-byte groups: 8 payload bytes (zero padded on the right) and a
// trailer byte that is the number of significant bytes when the group is the
// last one, or 9 when all 8 bytes are significant and more groups follow.
// ---------------------------------------------------------------------------

/// `s` padded with zeros on the right up to 8 bytes.
pub open spec fn pad8(s: Seq<u8>) -> Seq<u8> {
    s + Seq::new((8 - s.len()) as nat, |i: int| 0u8)
}

/// The 9-byte groups of a non-empty byte string.
pub open spec fn enc_groups(s: Seq<u8>) -> Seq<u8>
    decreases s.len(),
{
    if s.len() <= 8 {
        pad8(s).push(s.len() as u8)
    } else {
        s.take(8).push(9u8) + enc_groups(s.skip(8))
    }
}

/// The encoding of a byte string.
pub open spec fn enc_bytes(s: Seq<u8>) -> Seq<u8> {
    if s.len() == 0 {
        seq![0u8]
    } else {
        seq![1u8] + enc_groups(s)
    }
}

/// The encoding of a text string: its UTF-8 bytes as a byte string.
pub open spec fn enc_str(s: Seq<char>) -> Seq<u8> {
    enc_bytes(vstd::utf8::encode_utf8(s))
}

// ---------------------------------------------------------------------------
// Composite framing
// ---------------------------------------------------------------------------

/// `None` is one zero byte; `Some(v)` is 0x01 followed by the encoding of `v`.
pub open spec fn enc_option(inner: Option<Seq<u8>>) -> Seq<u8> {
    match inner {
        Option::None => seq![0u8],
        Option::Some(e) => seq![1u8] + e,
    }
}

/// Each sequence element is preceded by 0x01; a 0x00 terminator follows the
/// last element.
pub open spec fn enc_seq_elems(elems: Seq<Seq<u8>>) -> Seq<u8>
    decreases elems.len(),
{
    if elems.len() == 0 {
        seq![0u8]
    } else {
        seq![1u8] + elems.first() + enc_seq_elems(elems.drop_first())
    }
}

/// The variant index of a sum value, one byte.
pub open spec fn enc_variant(idx: u32) -> Seq<u8> {
    seq![(idx & 0xff) as u8]
}

// ---------------------------------------------------------------------------
// Specification-level decoding of byte strings
//
// `dec_bytes` is a total function from a byte stream to the outcome of
// parsing a byte-string value at its front: the stream may be too short for
// the framing (`Short`), it may show an invalid framing byte (`Bad`), or a
// value is found together with the number of bytes it occupied.
// ---------------------------------------------------------------------------

/// The outcome of parsing byte-string framing at the front of a stream.
pub enum BytesDecode {
    /// The stream ended inside the framing.
    Short,
    /// An invalid framing byte `b`, found after consuming `used` bytes
    /// (including `b` itself).
    Bad { b: u8, used: int },
    /// A byte string `content`, which occupied `used` bytes of the stream.
    Found { content: Seq<u8>, used: int },
}

/// Parse the 9-byte groups of a non-empty byte string at the front of `s`.
pub open spec fn dec_groups(s: Seq<u8>) -> BytesDecode
    decreases s.len(),
{
    if s.len() < 9 {
        BytesDecode::Short
    } else {
        let t = s[8];
        if 1 <= t <= 8 {
            BytesDecode::Found { content: s.take(t as int), used: 9 }
        } else if t == 9 {
            match dec_groups(s.skip(9)) {
                BytesDecode::Short => BytesDecode::Short,
                BytesDecode::Bad { b, used } => BytesDecode::Bad { b, used: used + 9 },
                BytesDecode::Found { content, used } => BytesDecode::Found {
                    content: s.take(8) + content,
                    used: used + 9,
                },
            }
        } else {
            BytesDecode::Bad { b: t, used: 9 }
        }
    }
}

/// Parse a byte-string value at the front of `s`.
pub open spec fn dec_bytes(s: Seq<u8>) -> BytesDecode {
    if s.len() == 0 {
        BytesDecode::Short
    } else if s[0] == 0 {
        BytesDecode::Found { content: Seq::empty(), used: 1 }
    } else if s[0] == 1 {
        match dec_groups(s.skip(1)) {
            BytesDecode::Short => BytesDecode::Short,
            BytesDecode::Bad { b, used } => BytesDecode::Bad { b, used: used + 1 },
            BytesDecode::Found { content, used } => BytesDecode::Found {
                content,
                used: used + 1,
            },
        }
    } else {
        BytesDecode::Bad { b: s[0], used: 1 }
    }
}

} // verus!
