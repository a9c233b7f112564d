use vstd::prelude::*;

use crate::enc::{be128, be16, be32, be64};

verus! {

// ---------------------------------------------------------------------------
// Byte sink
//
// The serializer appends to a growable byte buffer through the `bytes`
// crate's `BufMut` interface, whose impl for `Vec<u8>` appends to the vector.
// Each wrapper below holds one `BufMut` call and states, over the vector's
// view, what the call's documentation promises.
// ---------------------------------------------------------------------------

/// Relies on `BufMut::put_u8` for `Vec<u8>`: appends the byte.
#[verifier::external_body]
pub(crate) fn put_u8(buf: &mut Vec<u8>, v: u8)
    ensures
        final(buf)@ == old(buf)@.push(v),
{
    bytes::BufMut::put_u8(buf, v)
}

/// Relies on `BufMut::put_u16` for `Vec<u8>`: appends the two big-endian
/// bytes of the value.
#[verifier::external_body]
pub(crate) fn put_u16(buf: &mut Vec<u8>, v: u16)
    ensures
        final(buf)@ == old(buf)@ + be16(v),
{
    bytes::BufMut::put_u16(buf, v)
}

/// Relies on `BufMut::put_u32` for `Vec<u8>`: appends the four big-endian
/// bytes of the value.
#[verifier::external_body]
pub(crate) fn put_u32(buf: &mut Vec<u8>, v: u32)
    ensures
        final(buf)@ == old(buf)@ + be32(v),
{
    bytes::BufMut::put_u32(buf, v)
}

/// Relies on `BufMut::put_u64` for `Vec<u8>`: appends the eight big-endian
/// bytes of the value.
#[verifier::external_body]
pub(crate) fn put_u64(buf: &mut Vec<u8>, v: u64)
    ensures
        final(buf)@ == old(buf)@ + be64(v),
{
    bytes::BufMut::put_u64(buf, v)
}

/// Relies on `BufMut::put_u128` for `Vec<u8>`: appends the sixteen big-endian
/// bytes of the value.
#[verifier::external_body]
pub(crate) fn put_u128(buf: &mut Vec<u8>, v: u128)
    ensures
        final(buf)@ == old(buf)@ + be128(v),
{
    bytes::BufMut::put_u128(buf, v)
}

// ---------------------------------------------------------------------------
// std helpers that vstd leaves unspecified
// ---------------------------------------------------------------------------

/// Relies on `String::from_utf8`: succeeds exactly on valid UTF-8 input and
/// returns the string with those bytes.
#[verifier::external_body]
pub(crate) fn string_from_utf8(bytes: Vec<u8>) -> (r: Option<String>)
    ensures
        r matches Some(s) ==> vstd::utf8::encode_utf8(s@) == bytes@,
        r is Some <==> vstd::utf8::valid_utf8(bytes@),
{
    String::from_utf8(bytes).ok()
}

/// Relies on `char::from_u32`: `Some` exactly for the valid Unicode scalar
/// values, and the char returned has that scalar value.
#[verifier::external_body]
pub(crate) fn char_from_u32(u: u32) -> (r: Option<char>)
    ensures
        r matches Some(c) ==> c as u32 == u,
        r is Some <==> vstd::utf8::is_scalar(u),
{
    char::from_u32(u)
}

} // verus!
