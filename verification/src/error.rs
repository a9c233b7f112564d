use vstd::prelude::*;

verus! {

/// The errors that encoding or decoding can surface.
#[derive(Debug, Clone, PartialEq, Eq)]
pub enum Error {
    /// A free-form message propagated from the adapter layer that drives the
    /// codec.
    Message(String),
    /// The requested shape lies outside the format (maps, self-describing
    /// decoding, borrowed strings, identifiers).
    NotSupported(&'static str),
    /// A bool tag byte other than 0 or 1.
    InvalidBoolEncoding(u8),
    /// A u32 that is not a valid Unicode scalar value.
    InvalidCharEncoding(u32),
    /// An option tag other than 0 or 1.
    InvalidTagEncoding(usize),
    /// A sequence element tag other than 0 or 1.
    InvalidSeqEncoding(u8),
    /// A byte-string prefix or group-trailer byte out of range.
    InvalidBytesEncoding(u8),
    /// A decimal flag byte outside the defined ranges.
    InvalidDecimalEncoding(u8),
    /// A byte string failed UTF-8 validation when decoded as text.
    Utf8,
    /// Unconsumed bytes remained after a top-level decode.
    TrailingCharacters,
}

} // verus!
