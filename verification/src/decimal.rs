use vstd::prelude::*;

use crate::enc::flip_seq;
use crate::de::Deserializer;
use crate::error::Error;
use crate::ser::Serializer;

verus! {

broadcast use vstd::seq_lib::group_seq_properties;

/// An extended decimal number with `NaN`, `-Inf` and `Inf`.
///
/// A normalized value carries a signed integer mantissa and a non-negative
/// decimal scale: it denotes `mantissa / 10^scale`.  The bounds of `wf` are
/// those of the 96-bit decimal representation the codec is built for.
#[derive(Debug, Clone, Copy, PartialEq, Eq, Hash)]
pub enum Decimal {
    /// Negative infinity.
    NegInf,
    /// Normalized value: `mantissa / 10^scale`.
    Normalized {
        /// The signed integer mantissa.
        mantissa: i128,
        /// The decimal scale: how many of the mantissa's digits lie behind
        /// the decimal point.
        scale: u32,
    },
    /// Infinity.
    Inf,
    /// Not a Number.
    NaN,
}

impl Decimal {
    /// The bounds under which a normalized value is representable: the
    /// mantissa fits in 96 bits and the scale is at most 28.
    pub open spec fn wf(self) -> bool {
        match self {
            Decimal::Normalized { mantissa, scale } => scale <= 28 && -0x1000000000000000000000000
                < mantissa && mantissa < 0x1000000000000000000000000,
            _ => true,
        }
    }

    /// The zero value.
    pub fn zero() -> (r: Decimal)
        ensures
            r == (Decimal::Normalized { mantissa: 0i128, scale: 0u32 }),
    {
        Decimal::Normalized { mantissa: 0, scale: 0 }
    }
}

// ---------------------------------------------------------------------------
// Decimal digits, in specification
// ---------------------------------------------------------------------------

/// 10 to the power `n`.
pub open spec fn pow10(n: nat) -> int
    decreases n,
{
    if n == 0 {
        1
    } else {
        10 * pow10((n - 1) as nat)
    }
}

/// The number of decimal digits of `m` (0 for 0).
pub open spec fn num_digits(m: int) -> nat
    decreases m,
{
    if m <= 0 {
        0nat
    } else {
        1 + num_digits(m / 10)
    }
}

/// How many trailing zeros the decimal expansion of `m` has.
pub open spec fn count_tz(m: int) -> nat
    decreases m,
{
    if m <= 0 || m % 10 != 0 {
        0nat
    } else {
        1 + count_tz(m / 10)
    }
}

/// `m` with its trailing decimal zeros removed.
pub open spec fn strip_tz(m: int) -> int
    decreases m,
{
    if m <= 0 || m % 10 != 0 {
        m
    } else {
        strip_tz(m / 10)
    }
}

pub proof fn lemma_pow10_pos(n: nat)
    ensures
        pow10(n) >= 1,
    decreases n,
{
    if n > 0 {
        lemma_pow10_pos((n - 1) as nat);
    }
}

/// A bound on the value gives a bound on the digit count.
pub proof fn lemma_num_digits_bound(m: int, n: nat)
    requires
        0 <= m < pow10(n),
    ensures
        num_digits(m) <= n,
    decreases n,
{
    if m > 0 {
        if n == 0 {
        } else {
            assert(m / 10 < pow10((n - 1) as nat)) by {
                assert(m < 10 * pow10((n - 1) as nat));
            }
            lemma_num_digits_bound(m / 10, (n - 1) as nat);
        }
    }
}

/// Stripping trailing zeros keeps the value positive and removes exactly the
/// zero digits.
pub proof fn lemma_strip_tz(m: int)
    requires
        m > 0,
    ensures
        strip_tz(m) > 0,
        strip_tz(m) <= m,
        strip_tz(m) % 10 != 0,
        count_tz(m) < num_digits(m),
        num_digits(strip_tz(m)) == num_digits(m) - count_tz(m),
    decreases m,
{
    if m % 10 != 0 {
    } else {
        lemma_strip_tz(m / 10);
    }
}

/// The base-100 exponent of a positive value `m` with scale `scale`:
/// the value is `0.d1 d2 ... * 100^e` in base-100 scientific form.
pub open spec fn dec_e10(m: int, scale: u32) -> int {
    num_digits(m) - scale
}

/// Base-100 exponent from the base-10 one, rounding the digit count up to a
/// pair boundary on the integer side.
pub open spec fn dec_e100(e10: int) -> int {
    if e10 >= 0 {
        (e10 + 1) / 2
    } else {
        -((-e10) / 2)
    }
}

/// The number of significant base-10 digit positions of the significand,
/// counted from the base-100 boundary, after trailing zeros are stripped.
pub open spec fn dec_digit_count(m: int, scale: u32) -> int {
    let e10 = dec_e10(m, scale);
    let p = if e10 == 2 * dec_e100(e10) {
        num_digits(m) as int
    } else {
        num_digits(m) as int + 1
    };
    p - count_tz(m)
}

/// The mantissa from which base-100 digits are extracted: trailing zeros
/// stripped, then padded by one zero when the digit count is odd.
pub open spec fn dec_sig_mantissa(m: int, scale: u32) -> int {
    let m1 = strip_tz(m);
    if dec_digit_count(m, scale) % 2 == 1 {
        m1 * 10
    } else {
        m1
    }
}

/// The base-100 digit bytes of `m`, least significant first, each digit `d`
/// written as `2*d + 1`.
pub open spec fn cent_rev(m: int) -> Seq<u8>
    decreases m,
{
    if m <= 0 {
        Seq::empty()
    } else {
        seq![(2 * (m % 100) + 1) as u8] + cent_rev(m / 100)
    }
}

/// The significand bytes of the encoding: base-100 digits most significant
/// first, every byte `2*d + 1` except the last, which is `2*d`.
pub open spec fn sig_bytes(m2: int) -> Seq<u8> {
    let r = cent_rev(m2);
    r.update(0, (r[0] - 1) as u8).reverse()
}

/// The absolute value of a mantissa.
pub open spec fn abs_mantissa(m: i128) -> int {
    if m >= 0 {
        m as int
    } else {
        -(m as int)
    }
}

// ---------------------------------------------------------------------------
// The encoding of a decimal
// ---------------------------------------------------------------------------

/// The encoding of a non-zero normalized decimal.
///
/// The flag byte carries the sign bucket and, for exponents in [0, 10], the
/// exponent itself; larger and smaller exponents get a second byte.  The
/// significand bytes follow, complemented for negative values.
pub open spec fn enc_normalized(mantissa: i128, scale: u32) -> Seq<u8> {
    let a = abs_mantissa(mantissa);
    let e = dec_e100(dec_e10(a, scale));
    let sig = sig_bytes(dec_sig_mantissa(a, scale));
    if mantissa > 0 {
        let flag = if e >= 11 {
            seq![0x22u8, e as u8]
        } else if e >= 0 {
            seq![(0x17 + e) as u8]
        } else {
            seq![0x16u8, (255 + e) as u8]
        };
        flag + sig
    } else {
        let flag = if e >= 11 {
            seq![0x08u8, (255 - e) as u8]
        } else if e >= 0 {
            seq![(0x13 - e) as u8]
        } else {
            seq![0x14u8, (-e) as u8]
        };
        flag + flip_seq(sig)
    }
}

/// The encoding of a decimal value.  The flag bytes of the buckets are laid
/// out so that byte order equals numeric order:
/// NegInf < negatives < zero < positives < Inf, with NaN below everything.
pub open spec fn enc_decimal(d: Decimal) -> Seq<u8> {
    match d {
        Decimal::NaN => seq![0x06u8],
        Decimal::NegInf => seq![0x07u8],
        Decimal::Inf => seq![0x23u8],
        Decimal::Normalized { mantissa, scale } => {
            if mantissa == 0 {
                seq![0x15u8]
            } else {
                enc_normalized(mantissa, scale)
            }
        },
    }
}

// ---------------------------------------------------------------------------
// Exponent and significand extraction
// ---------------------------------------------------------------------------

/// Get the base-100 exponent and the significand bytes of a normalized
/// decimal given as mantissa and scale.
#[verifier::loop_isolation(false)]
pub fn decimal_e_m(mantissa: i128, scale: u32) -> (r: (i8, Vec<u8>))
    requires
        scale <= 28,
        -0x1000000000000000000000000 < mantissa < 0x1000000000000000000000000,
    ensures
        mantissa == 0 ==> r.0 == 0 && r.1@ == Seq::<u8>::empty(),
        mantissa != 0 ==> {
            let a = abs_mantissa(mantissa);
            r.0 == dec_e100(dec_e10(a, scale)) && r.1@ == sig_bytes(dec_sig_mantissa(a, scale))
        },
        -13 <= r.0 <= 15,
{
    if mantissa == 0 {
        return (0, Vec::new());
    }
    let mut m: u128 = if mantissa >= 0 {
        mantissa as u128
    } else {
        (-mantissa) as u128
    };
    let ghost a = abs_mantissa(mantissa);
    assert(m == a);
    // count the decimal digits
    let mut prec: u32 = 0;
    let mut x: u128 = m;
    while x > 0
        invariant
            num_digits(a) == prec + num_digits(x as int),
            prec <= 29,
            x <= a,
        decreases x,
    {
        proof {
            assert(pow10(29) == 0x1431E0FAE6D7217CAA0000000int) by {
                reveal_with_fuel(pow10, 30);
            }
            lemma_num_digits_bound(a, 29);
            assert(num_digits(x as int) == 1 + num_digits(x as int / 10));
        }
        x = x / 10;
        prec = prec + 1;
    }
    proof {
        assert(num_digits(a) == prec);
        assert(prec >= 1);
    }
    let e10: i32 = prec as i32 - scale as i32;
    let e100: i32 = if e10 >= 0 {
        (e10 + 1) / 2
    } else {
        -((-e10) / 2)
    };
    assert(e10 == dec_e10(a, scale));
    assert(e100 == dec_e100(e10 as int));
    assert(-13 <= e100 <= 15);
    let mut digit_num: u32 = if e10 == 2 * e100 {
        prec
    } else {
        prec + 1
    };
    // strip trailing zeros
    proof {
        lemma_strip_tz(a);
    }
    while m % 10 == 0
        invariant
            m >= 1,
            strip_tz(a) == strip_tz(m as int),
            count_tz(a) == count_tz(m as int) + (num_digits(a) - num_digits(m as int)),
            num_digits(m as int) >= num_digits(a) - count_tz(a),
            digit_num == dec_digit_count(a, scale) + (count_tz(a) - (num_digits(a) - num_digits(
                m as int,
            ))),
            digit_num >= 1,
        decreases m,
    {
        proof {
            lemma_strip_tz(m as int);
            assert(num_digits(m as int) == 1 + num_digits(m as int / 10));
        }
        m = m / 10;
        digit_num = digit_num - 1;
    }
    proof {
        assert(count_tz(m as int) == 0);
        assert(strip_tz(m as int) == m);
        assert(m == strip_tz(a));
        assert(digit_num == dec_digit_count(a, scale));
    }
    // pad to a base-100 boundary
    if digit_num % 2 == 1 {
        assert(m < 0x1000000000000000000000000);
        m = m * 10;
    }
    let ghost m2 = dec_sig_mantissa(a, scale);
    assert(m == m2);
    // extract base-100 digits, least significant first
    let mut arr: Vec<u8> = Vec::new();
    while m != 0
        invariant
            arr@ + cent_rev(m as int) == cent_rev(m2),
        decreases m,
    {
        let byte: u8 = ((m % 100) as u8) * 2 + 1;
        arr.push(byte);
        proof {
            assert(arr@ + cent_rev(m as int / 100) =~= (arr@.drop_last() + seq![byte])
                + cent_rev(m as int / 100));
            assert(seq![byte] + cent_rev(m as int / 100) == cent_rev(m as int));
            assert(arr@.drop_last() + (seq![byte] + cent_rev(m as int / 100)) =~= arr@ + cent_rev(
                m as int / 100,
            ));
        }
        m = m / 100;
    }
    proof {
        assert(arr@ + cent_rev(0int) =~= arr@);
        assert(arr@ == cent_rev(m2));
        assert(m2 > 0);
        assert(cent_rev(m2).len() >= 1);
    }
    // the least significant digit marks the end: its byte is even
    let b0 = arr[0];
    proof {
        assert(cent_rev(m2)[0] == (2 * (m2 % 100) + 1) as u8);
        assert(b0 >= 1);
    }
    arr.set(0, b0 - 1);
    // most significant digit first
    let mut sig: Vec<u8> = Vec::new();
    let mut t: usize = arr.len();
    while t > 0
        invariant
            t <= arr.len(),
            arr@ == cent_rev(m2).update(0, (cent_rev(m2)[0] - 1) as u8),
            sig@.len() == arr@.len() - t,
            forall|i: int| 0 <= i < sig@.len() ==> sig@[i] == arr@[arr@.len() - 1 - i],
        decreases t,
    {
        t = t - 1;
        sig.push(arr[t]);
    }
    proof {
        assert(sig@ =~= arr@.reverse());
        assert(sig@ == sig_bytes(m2));
    }
    (e100 as i8, sig)
}


// ---------------------------------------------------------------------------
// Serializing a decimal
// ---------------------------------------------------------------------------

impl Serializer {
    /// Serialize a decimal value.
    ///
    /// A leading flag byte orders the buckets (NaN, -Inf, negative, zero,
    /// positive, Inf) and carries the base-100 exponent for normalized
    /// values; the significand bytes follow, complemented for negative
    /// values.  These bytes bypass the order-reversal flip: the ordering is
    /// intrinsic to the format.
    #[verifier::loop_isolation(false)]
    pub fn serialize_decimal(&mut self, decimal: Decimal) -> (r: Result<(), Error>)
        requires
            decimal.wf(),
        ensures
            r is Ok,
            final(self).flipped() == old(self).flipped(),
            final(self).bytes() == old(self).bytes() + enc_decimal(decimal),
    {
        let (mantissa, scale) = match decimal {
            Decimal::NaN => {
                self.put_raw(0x06);
                proof {
                    assert(final(self).bytes() =~= old(self).bytes() + enc_decimal(decimal));
                }
                return Ok(());
            },
            Decimal::NegInf => {
                self.put_raw(0x07);
                proof {
                    assert(final(self).bytes() =~= old(self).bytes() + enc_decimal(decimal));
                }
                return Ok(());
            },
            Decimal::Inf => {
                self.put_raw(0x23);
                proof {
                    assert(final(self).bytes() =~= old(self).bytes() + enc_decimal(decimal));
                }
                return Ok(());
            },
            Decimal::Normalized { mantissa, scale } => {
                if mantissa == 0 {
                    self.put_raw(0x15);
                    proof {
                        assert(final(self).bytes() =~= old(self).bytes() + enc_decimal(decimal));
                    }
                    return Ok(());
                }
                (mantissa, scale)
            },
        };
        let (exponent, significand) = decimal_e_m(mantissa, scale);
        let ghost a = abs_mantissa(mantissa);
        let ghost e = dec_e100(dec_e10(a, scale));
        let ghost sig = sig_bytes(dec_sig_mantissa(a, scale));
        if mantissa > 0 {
            if exponent >= 11 {
                self.put_raw(0x22);
                self.put_raw(exponent as u8);
            } else if exponent >= 0 {
                self.put_raw(0x17 + exponent as u8);
            } else {
                self.put_raw(0x16);
                self.put_raw((255 + exponent as i32) as u8);
            }
            proof {
                let flag = if e >= 11 {
                    seq![0x22u8, e as u8]
                } else if e >= 0 {
                    seq![(0x17 + e) as u8]
                } else {
                    seq![0x16u8, (255 + e) as u8]
                };
                assert(self.bytes() =~= old(self).bytes() + flag);
            }
            let mut i: usize = 0;
            while i < significand.len()
                invariant
                    i <= significand.len(),
                    self.flipped() == old(self).flipped(),
                    self.bytes() == old(self).bytes() + (enc_decimal(decimal).take(
                        enc_decimal(decimal).len() - sig.len() + i,
                    )),
                decreases significand.len() - i,
            {
                self.put_raw(significand[i]);
                i = i + 1;
            }
            proof {
                assert(final(self).bytes() =~= old(self).bytes() + enc_decimal(decimal));
            }
        } else {
            if exponent >= 11 {
                self.put_raw(0x08);
                self.put_raw((255 - exponent as i32) as u8);
            } else if exponent >= 0 {
                self.put_raw(0x13 - exponent as u8);
            } else {
                self.put_raw(0x14);
                self.put_raw((-(exponent as i32)) as u8);
            }
            proof {
                let flag = if e >= 11 {
                    seq![0x08u8, (255 - e) as u8]
                } else if e >= 0 {
                    seq![(0x13 - e) as u8]
                } else {
                    seq![0x14u8, (-e) as u8]
                };
                assert(self.bytes() =~= old(self).bytes() + flag);
            }
            let mut i: usize = 0;
            while i < significand.len()
                invariant
                    i <= significand.len(),
                    self.flipped() == old(self).flipped(),
                    self.bytes() == old(self).bytes() + (enc_decimal(decimal).take(
                        enc_decimal(decimal).len() - sig.len() + i,
                    )),
                decreases significand.len() - i,
            {
                let b = significand[i];
                self.put_raw(!b);
                i = i + 1;
            }
            proof {
                assert(final(self).bytes() =~= old(self).bytes() + enc_decimal(decimal));
            }
        }
        Ok(())
    }
}


// ---------------------------------------------------------------------------
// Specification-level decoding of a decimal
// ---------------------------------------------------------------------------

/// The outcome of reading significand digit bytes: digits accumulate into
/// `m` starting from `m0`, `count` counts them from `cnt0`, and `used` is
/// the number of bytes consumed.
pub enum SigDecode {
    /// The stream ended before the terminating even byte.
    Short,
    /// The digits read.
    Digits {
        /// The accumulated base-100 mantissa.
        m: int,
        /// How many digit bytes were read, including those before `m0`.
        count: int,
        /// How many bytes of the stream were consumed.
        used: int,
    },
}

/// Read base-100 digit bytes from the front of `s`: each byte (complemented
/// when `neg`) holds a digit in its upper seven bits; an even byte is the
/// last digit.
pub open spec fn dec_sig(s: Seq<u8>, neg: bool, m0: int, cnt0: int) -> SigDecode
    decreases s.len(),
{
    if s.len() == 0 {
        SigDecode::Short
    } else {
        let b = if neg {
            !s[0]
        } else {
            s[0]
        };
        let m1 = m0 * 100 + (b / 2);
        if b & 1 == 0 {
            SigDecode::Digits { m: m1, count: cnt0 + 1, used: 1 }
        } else {
            match dec_sig(s.skip(1), neg, m1, cnt0 + 1) {
                SigDecode::Short => SigDecode::Short,
                SigDecode::Digits { m, count, used } => SigDecode::Digits {
                    m,
                    count,
                    used: used + 1,
                },
            }
        }
    }
}

/// Along a successful digit read the accumulated mantissa and digit count
/// never decrease.
pub proof fn lemma_dec_sig_monotone(s: Seq<u8>, neg: bool, m0: int, cnt0: int)
    requires
        m0 >= 0,
        dec_sig(s, neg, m0, cnt0) is Digits,
    ensures
        dec_sig(s, neg, m0, cnt0)->Digits_m >= m0,
        dec_sig(s, neg, m0, cnt0)->Digits_count > cnt0,
        dec_sig(s, neg, m0, cnt0)->Digits_used >= 1,
    decreases s.len(),
{
    let b = if neg {
        !s[0]
    } else {
        s[0]
    };
    let m1 = m0 * 100 + (b / 2);
    assert(m1 >= m0);
    if b & 1 != 0 {
        lemma_dec_sig_monotone(s.skip(1), neg, m1, cnt0 + 1);
    }
}

/// The signed exponent read from the second byte of a two-byte header, as
/// the decoder's 8-bit arithmetic produces it.
pub open spec fn flag_exponent(flag: u8, b2: u8) -> int {
    if flag == 0x08 {
        if 255 - b2 >= 128 {
            255 - b2 - 256
        } else {
            255 - b2
        }
    } else if flag == 0x14 {
        -(if b2 >= 128 {
            b2 - 256
        } else {
            b2 as int
        })
    } else if flag == 0x16 {
        (if b2 >= 128 {
            b2 - 256
        } else {
            b2 as int
        }) + 1
    } else {
        if b2 >= 128 {
            b2 - 256
        } else {
            b2 as int
        }
    }
}

/// Whether the flag byte takes a second, exponent byte.
pub open spec fn flag_two_bytes(flag: u8) -> bool {
    flag == 0x08 || flag == 0x14 || flag == 0x16 || flag == 0x22
}

/// The exponent of a normalized encoding with flag `flag`, whose second byte
/// (when there is one) is `b2`.
pub open spec fn dec_exponent(flag: u8, b2: u8) -> int {
    if flag_two_bytes(flag) {
        flag_exponent(flag, b2)
    } else if flag <= 0x13 {
        0x13 - flag
    } else {
        flag - 0x17
    }
}

/// The scale adjustment after the digits are read: a non-positive raw scale
/// pads the mantissa with zeros; otherwise one trailing zero introduced by
/// the encoder's padding is dropped.
pub open spec fn dec_scale_adjust(m: int, mlen: int, e: int) -> (int, int) {
    let scale = (mlen - e) * 2;
    if scale <= 0 {
        (m * pow10((-scale) as nat), 0)
    } else if m % 10 == 0 {
        (m / 10, scale - 1)
    } else {
        (m, scale)
    }
}

/// The outcome of decoding a decimal at the front of the raw byte stream.
pub enum DecimalDecode {
    /// The stream ended inside the encoding.
    Short,
    /// An invalid flag byte.
    Bad {
        /// The flag byte found.
        b: u8,
    },
    /// A decimal value, and the bytes it occupied.
    Val {
        /// The decoded value.
        d: Decimal,
        /// How many bytes of the stream it occupied.
        used: int,
    },
}

/// Decode a decimal at the front of the raw stream `s`.
pub open spec fn dec_decimal(s: Seq<u8>) -> DecimalDecode {
    if s.len() == 0 {
        DecimalDecode::Short
    } else {
        let flag = s[0];
        if flag == 0x06 {
            DecimalDecode::Val { d: Decimal::NaN, used: 1 }
        } else if flag == 0x07 {
            DecimalDecode::Val { d: Decimal::NegInf, used: 1 }
        } else if flag == 0x15 {
            DecimalDecode::Val { d: Decimal::Normalized { mantissa: 0, scale: 0 }, used: 1 }
        } else if flag == 0x23 {
            DecimalDecode::Val { d: Decimal::Inf, used: 1 }
        } else if flag < 0x06 || flag > 0x23 {
            DecimalDecode::Bad { b: flag }
        } else if flag_two_bytes(flag) && s.len() < 2 {
            DecimalDecode::Short
        } else {
            let hdr: int = if flag_two_bytes(flag) {
                2
            } else {
                1
            };
            let e = dec_exponent(flag, if s.len() >= 2 {
                s[1]
            } else {
                0
            });
            let neg = 0x08 <= flag <= 0x14;
            match dec_sig(s.skip(hdr), neg, 0, 0) {
                SigDecode::Short => DecimalDecode::Short,
                SigDecode::Digits { m, count, used } => {
                    let adjusted = dec_scale_adjust(m, count, e);
                    let mf = if neg {
                        -adjusted.0
                    } else {
                        adjusted.0
                    };
                    DecimalDecode::Val {
                        d: Decimal::Normalized { mantissa: mf as i128, scale: adjusted.1 as u32 },
                        used: hdr + used,
                    }
                },
            }
        }
    }
}

/// The inputs on which the decoder's 8-bit and 128-bit arithmetic stays in
/// range.  Outside these bounds decoding a decimal is not defined: the
/// mantissa or scale would overflow its representation.
pub open spec fn dec_decimal_fits(s: Seq<u8>) -> bool {
    if s.len() == 0 {
        true
    } else {
        let flag = s[0];
        if flag == 0x06 || flag == 0x07 || flag == 0x15 || flag == 0x23 || flag < 0x06 || flag
            > 0x23 {
            true
        } else if flag_two_bytes(flag) && s.len() < 2 {
            true
        } else if flag == 0x14 && s[1] == 0x80 {
            false
        } else if flag == 0x16 && s[1] == 0x7f {
            false
        } else {
            let hdr: int = if flag_two_bytes(flag) {
                2
            } else {
                1
            };
            let e = dec_exponent(flag, if s.len() >= 2 {
                s[1]
            } else {
                0
            });
            let neg = 0x08 <= flag <= 0x14;
            match dec_sig(s.skip(hdr), neg, 0, 0) {
                SigDecode::Short => true,
                SigDecode::Digits { m, count, used } => {
                    let scale = (count - e) * 2;
                    let adjusted = dec_scale_adjust(m, count, e);
                    &&& m <= 0x7fffffffffffffffffffffffffffffff
                    &&& count <= 127
                    &&& -128 <= count - e <= 127
                    &&& -127 <= scale <= 127
                    &&& adjusted.0 < 0x1000000000000000000000000
                    &&& adjusted.1 <= 28
                },
            }
        }
    }
}

// ---------------------------------------------------------------------------
// Deserializing a decimal
// ---------------------------------------------------------------------------

impl<'a> Deserializer<'a> {
    /// Deserialize a decimal value.
    ///
    /// The bytes are read directly, without the order-reversal flip: the
    /// decimal format's ordering is intrinsic to its bytes.
    #[verifier::rlimit(100)]
    pub fn deserialize_decimal(&mut self) -> (r: Result<Decimal, Error>)
        requires
            !(dec_decimal(old(self).remaining_bytes()) is Short),
            dec_decimal_fits(old(self).remaining_bytes()),
        ensures
            final(self).all_bytes() == old(self).all_bytes(),
            final(self).flipped() == old(self).flipped(),
            match dec_decimal(old(self).remaining_bytes()) {
                DecimalDecode::Val { d, used } => r == Ok::<Decimal, Error>(d) && d.wf()
                    && final(self).consumed() == old(self).consumed() + used
                    && 1 <= used <= old(self).remaining_bytes().len(),
                DecimalDecode::Bad { b } => r == Err::<Decimal, Error>(
                    Error::InvalidDecimalEncoding(b),
                ) && final(self).consumed() == old(self).consumed() + 1,
                DecimalDecode::Short => false,
            },
    {
        let ghost s = old(self).remaining_bytes();
        let flag = self.get_raw();
        if flag == 0x06 {
            return Ok(Decimal::NaN);
        }
        if flag == 0x07 {
            return Ok(Decimal::NegInf);
        }
        if flag == 0x15 {
            return Ok(Decimal::Normalized { mantissa: 0, scale: 0 });
        }
        if flag == 0x23 {
            return Ok(Decimal::Inf);
        }
        if flag < 0x06 || flag > 0x23 {
            return Err(Error::InvalidDecimalEncoding(flag));
        }
        // decode the exponent
        let two = flag == 0x08 || flag == 0x14 || flag == 0x16 || flag == 0x22;
        let ghost b2spec: u8 = if s.len() >= 2 {
            s[1]
        } else {
            0
        };
        let exponent: i32;
        if two {
            proof {
                assert(s.len() >= 2);
            }
            let b2 = self.get_raw();
            let x: i32 = if b2 >= 128 {
                b2 as i32 - 256
            } else {
                b2 as i32
            };
            exponent = if flag == 0x08 {
                let t: i32 = 255 - b2 as i32;
                if t >= 128 {
                    t - 256
                } else {
                    t
                }
            } else if flag == 0x14 {
                -x
            } else if flag == 0x16 {
                x + 1
            } else {
                x
            };
        } else if flag <= 0x13 {
            exponent = 0x13 - flag as i32;
        } else {
            exponent = flag as i32 - 0x17;
        }
        let ghost e = dec_exponent(flag, b2spec);
        let ghost hdr: int = if two {
            2
        } else {
            1
        };
        proof {
            assert(exponent == e);
            assert(self.remaining_bytes() =~= s.skip(hdr));
        }
        let neg = 0x08 <= flag && flag <= 0x14;
        // read the significand digits
        let ghost rest0 = self.remaining_bytes();
        let mut mantissa: i128 = 0;
        let mut mlen: i32 = 0;
        let ghost used0: int = 0;
        let ghost md = dec_sig(rest0, neg, 0, 0)->Digits_m;
        let ghost cd = dec_sig(rest0, neg, 0, 0)->Digits_count;
        proof {
            assert(dec_sig(rest0, neg, 0, 0) is Digits);
            assert(md <= 0x7fffffffffffffffffffffffffffffff && cd <= 127);
        }
        loop
            invariant_except_break
                mantissa >= 0,
                mlen >= 0,
                0 <= used0 <= rest0.len(),
                dec_sig(rest0, neg, 0, 0) is Digits,
                md == dec_sig(rest0, neg, 0, 0)->Digits_m,
                cd == dec_sig(rest0, neg, 0, 0)->Digits_count,
                md <= 0x7fffffffffffffffffffffffffffffff,
                cd <= 127,
                self.all_bytes() == old(self).all_bytes(),
                self.flipped() == old(self).flipped(),
                self.consumed() == old(self).consumed() + hdr + used0,
                self.remaining_bytes() == rest0.skip(used0),
                dec_sig(rest0, neg, 0, 0) == match dec_sig(
                    self.remaining_bytes(),
                    neg,
                    mantissa as int,
                    mlen as int,
                ) {
                    SigDecode::Short => SigDecode::Short,
                    SigDecode::Digits { m, count, used } => SigDecode::Digits {
                        m,
                        count,
                        used: used + used0,
                    },
                },
            ensures
                self.all_bytes() == old(self).all_bytes(),
                self.flipped() == old(self).flipped(),
                self.consumed() == old(self).consumed() + hdr + used0,
                0 <= used0 <= rest0.len(),
                mantissa >= 0,
                mlen >= 1,
                dec_sig(rest0, neg, 0, 0) == (SigDecode::Digits {
                    m: mantissa as int,
                    count: mlen as int,
                    used: used0,
                }),
            decreases self.remaining_bytes().len(),
        {
            let ghost cur = self.remaining_bytes();
            let ghost m_old = mantissa as int;
            let ghost mlen_old = mlen as int;
            proof {
                assert(!(dec_sig(cur, neg, m_old, mlen_old) is Short));
                assert(cur.len() >= 1);
            }
            let braw = self.get_raw();
            let b = if neg {
                !braw
            } else {
                braw
            };
            proof {
                assert(b == (if neg {
                    !cur[0]
                } else {
                    cur[0]
                }));
                let m1 = m_old * 100 + (b / 2);
                if b & 1 == 0 {
                    assert(dec_sig(cur, neg, m_old, mlen_old) == SigDecode::Digits {
                        m: m1,
                        count: mlen_old + 1,
                        used: 1,
                    });
                } else {
                    lemma_dec_sig_monotone(cur.skip(1), neg, m1, mlen_old + 1);
                }
                assert(m1 <= md);
                assert(mlen_old + 1 <= cd);
                assert(m1 >= m_old);
            }
            let x = b / 2;
            mantissa = mantissa * 100 + (x as i128);
            mlen = mlen + 1;
            proof {
                used0 = used0 + 1;
                vstd::seq_lib::lemma_seq_skip_of_skip(rest0, used0 - 1, 1);
                assert(cur.skip(1) =~= rest0.skip(used0));
            }
            if b & 1 == 0 {
                proof {
                    assert(dec_sig(rest0, neg, 0, 0) == (SigDecode::Digits {
                        m: mantissa as int,
                        count: mlen as int,
                        used: used0,
                    }));
                }
                break;
            }
        }
        // derive the scale
        let ghost adjusted = dec_scale_adjust(mantissa as int, mlen as int, e);
        let mut scale: i32 = (mlen - exponent) * 2;
        proof {
            assert(mantissa as int <= 0x7fffffffffffffffffffffffffffffff);
            assert(mlen <= 127);
        }
        if scale <= 0 {
            let ghost mbase = mantissa as int;
            let bound = -scale;
            proof {
                let pb = pow10(bound as nat);
                lemma_pow10_pos(bound as nat);
                vstd::arithmetic::mul::lemma_mul_inequality(1, pb, mbase);
                vstd::arithmetic::mul::lemma_mul_is_commutative(pb, mbase);
                vstd::arithmetic::mul::lemma_mul_basics(mbase);
                assert(adjusted.0 == mbase * pb);
                assert(pow10(0nat) == 1);
            }
            let mut i: i32 = 0;
            while i < bound
                invariant
                    0 <= i <= bound,
                    mbase >= 0,
                    adjusted.0 == mbase * pow10(bound as nat),
                    adjusted.0 < 0x1000000000000000000000000,
                    mantissa == mbase * pow10(i as nat),
                    mantissa <= adjusted.0,
                decreases bound - i,
            {
                proof {
                    let p = pow10(i as nat);
                    let p1 = pow10((i + 1) as nat);
                    let pb = pow10(bound as nat);
                    assert(p1 == 10 * p);
                    lemma_pow10_mono((i + 1) as nat, bound as nat);
                    vstd::arithmetic::mul::lemma_mul_inequality(p1, pb, mbase);
                    vstd::arithmetic::mul::lemma_mul_is_commutative(p1, mbase);
                    vstd::arithmetic::mul::lemma_mul_is_commutative(pb, mbase);
                    assert(mbase * p1 == (mbase * p) * 10) by (nonlinear_arith)
                        requires
                            p1 == 10 * p,
                    ;
                    assert(mantissa * 10 == mbase * p1);
                    assert(mantissa * 10 <= adjusted.0);
                    lemma_pow10_pos((i + 1) as nat);
                    vstd::arithmetic::mul::lemma_mul_nonnegative(mbase, p1);
                    assert(mantissa * 10 >= 0);
                }
                mantissa = mantissa * 10;
                i = i + 1;
            }
            scale = 0;
        } else if mantissa % 10 == 0 {
            mantissa = mantissa / 10;
            scale = scale - 1;
        }
        proof {
            assert(mantissa == adjusted.0);
            assert(scale == adjusted.1);
        }
        if neg {
            mantissa = -mantissa;
        }
        Ok(Decimal::Normalized { mantissa, scale: scale as u32 })
    }
}

/// Raising the exponent raises the power.
pub proof fn lemma_pow10_mono(a: nat, b: nat)
    requires
        a <= b,
    ensures
        pow10(a) <= pow10(b),
    decreases b,
{
    if a < b {
        lemma_pow10_mono(a, (b - 1) as nat);
        lemma_pow10_pos((b - 1) as nat);
    }
}


// ---------------------------------------------------------------------------
// Convenience entry points
// ---------------------------------------------------------------------------

impl Decimal {
    /// Serialize the decimal into a vector.
    pub fn to_vec(&self) -> (r: Result<Vec<u8>, Error>)
        requires
            self.wf(),
        ensures
            r matches Ok(v) && v@ == enc_decimal(*self),
    {
        let mut serializer = Serializer::new(Vec::new());
        match serializer.serialize_decimal(*self) {
            Ok(u) => u,
            Err(e) => return Err(e),
        };
        proof {
            assert(serializer.bytes() =~= enc_decimal(*self));
        }
        Ok(serializer.into_inner())
    }

    /// Deserialize a decimal value from memcomparable bytes; bytes left over
    /// after the value are an error.
    pub fn from_slice(bytes: &[u8]) -> (r: Result<Decimal, Error>)
        requires
            !(dec_decimal(bytes@) is Short),
            dec_decimal_fits(bytes@),
        ensures
            match dec_decimal(bytes@) {
                DecimalDecode::Val { d, used } => r == (if used == bytes@.len() {
                    Ok::<Decimal, Error>(d)
                } else {
                    Err::<Decimal, Error>(Error::TrailingCharacters)
                }),
                DecimalDecode::Bad { b } => r == Err::<Decimal, Error>(
                    Error::InvalidDecimalEncoding(b),
                ),
                DecimalDecode::Short => false,
            },
    {
        let mut deserializer = Deserializer::new(bytes);
        proof {
            assert(deserializer.remaining_bytes() =~= bytes@);
        }
        let t = match deserializer.deserialize_decimal() {
            Ok(t) => t,
            Err(e) => return Err(e),
        };
        if !deserializer.has_remaining() {
            Ok(t)
        } else {
            Err(Error::TrailingCharacters)
        }
    }
}


// ---------------------------------------------------------------------------
// Round trip of the significand digits
// ---------------------------------------------------------------------------

/// The base-100 digit values of `m`, least significant first.
pub open spec fn digits_rev(m: int) -> Seq<u8>
    decreases m,
{
    if m <= 0 {
        Seq::empty()
    } else {
        seq![(m % 100) as u8] + digits_rev(m / 100)
    }
}

/// The marker encoding of a most-significant-first digit list: each digit
/// `d` becomes `2*d + 1`, the last one `2*d`.
pub open spec fn marked_bytes(ds: Seq<u8>) -> Seq<u8> {
    Seq::new(
        ds.len(),
        |i: int|
            if i == ds.len() - 1 {
                (2 * ds[i]) as u8
            } else {
                (2 * ds[i] + 1) as u8
            },
    )
}

/// Reading a most-significant-first digit list into an accumulator.
pub open spec fn accval(ds: Seq<u8>, acc: int) -> int
    decreases ds.len(),
{
    if ds.len() == 0 {
        acc
    } else {
        accval(ds.drop_first(), acc * 100 + ds[0])
    }
}

/// Every base-100 digit is below 100.
pub proof fn lemma_digits_rev_bounds(m: int)
    ensures
        forall|i: int| 0 <= i < digits_rev(m).len() ==> digits_rev(m)[i] <= 99,
        m >= 1 ==> digits_rev(m).len() >= 1,
    decreases m,
{
    if m > 0 {
        lemma_digits_rev_bounds(m / 100);
        assert forall|i: int| 0 <= i < digits_rev(m).len() implies digits_rev(m)[i] <= 99 by {
            if i > 0 {
                assert(digits_rev(m)[i] == digits_rev(m / 100)[i - 1]);
            }
        }
    }
}

/// The significand bytes are the marker encoding of the digits, most
/// significant first.
pub proof fn lemma_sig_bytes_marked(m: int)
    requires
        m >= 1,
    ensures
        sig_bytes(m) == marked_bytes(digits_rev(m).reverse()),
    decreases m,
{
    lemma_digits_rev_bounds(m);
    lemma_cent_rev_digits(m);
    let cr = cent_rev(m);
    let ds = digits_rev(m);
    let n = ds.len() as int;
    assert(cr.len() == n);
    let upd = cr.update(0, (cr[0] - 1) as u8);
    assert forall|i: int| 0 <= i < n implies upd.reverse()[i] == marked_bytes(ds.reverse())[i] by {
        assert(upd.reverse()[i] == upd[n - 1 - i]);
        assert(ds.reverse()[i] == ds[n - 1 - i]);
        if i == n - 1 {
            assert(upd[0] == (cr[0] - 1) as u8);
            assert(cr[0] == (2 * ds[0] + 1) as u8);
        } else {
            assert(upd[n - 1 - i] == cr[n - 1 - i]);
            assert(cr[n - 1 - i] == (2 * ds[n - 1 - i] + 1) as u8);
        }
    }
    assert(upd.reverse() =~= marked_bytes(ds.reverse()));
}

/// The byte list of the digits carries each digit doubled, plus the
/// continuation bit.
proof fn lemma_cent_rev_digits(m: int)
    ensures
        cent_rev(m).len() == digits_rev(m).len(),
        forall|i: int| 0 <= i < cent_rev(m).len() ==> cent_rev(m)[i] == (2 * digits_rev(m)[i]
            + 1) as u8,
    decreases m,
{
    if m > 0 {
        lemma_cent_rev_digits(m / 100);
        assert forall|i: int| 0 <= i < cent_rev(m).len() implies cent_rev(m)[i] == (2 * digits_rev(
            m,
        )[i] + 1) as u8 by {
            if i > 0 {
                assert(cent_rev(m)[i] == cent_rev(m / 100)[i - 1]);
                assert(digits_rev(m)[i] == digits_rev(m / 100)[i - 1]);
            }
        }
    }
}

/// Reading the marker encoding of a digit list accumulates exactly the
/// digits.
proof fn lemma_dec_sig_marked(ds: Seq<u8>, acc: int, c: int)
    requires
        ds.len() >= 1,
        forall|i: int| 0 <= i < ds.len() ==> ds[i] <= 99,
    ensures
        dec_sig(marked_bytes(ds), false, acc, c) == (SigDecode::Digits {
            m: accval(ds, acc),
            count: c + ds.len(),
            used: ds.len() as int,
        }),
    decreases ds.len(),
{
    let bs = marked_bytes(ds);
    let d = ds[0];
    assert((((2 * d) as u8) & 1) == 0 && (((2 * d) as u8) / 2) == d && (((2 * d + 1) as u8) & 1)
        == 1 && (((2 * d + 1) as u8) / 2) == d) by (bit_vector)
        requires
            d <= 99,
    ;
    if ds.len() == 1 {
        assert(bs[0] == (2 * d) as u8);
    } else {
        assert(bs[0] == (2 * d + 1) as u8);
        assert(bs.skip(1) =~= marked_bytes(ds.drop_first()));
        lemma_dec_sig_marked(ds.drop_first(), acc * 100 + d, c + 1);
    }
}

/// Complementing every byte and asking for the complemented reading gives
/// the plain reading.
proof fn lemma_dec_sig_flip(bs: Seq<u8>, acc: int, c: int)
    ensures
        dec_sig(flip_seq(bs), true, acc, c) == dec_sig(bs, false, acc, c),
    decreases bs.len(),
{
    if bs.len() > 0 {
        let b = bs[0];
        assert(!(!b) == b) by (bit_vector);
        assert(flip_seq(bs)[0] == !b);
        assert(flip_seq(bs).skip(1) =~= flip_seq(bs.skip(1)));
        lemma_dec_sig_flip(bs.skip(1), acc * 100 + (b / 2), c + 1);
    }
}

/// Appending a digit multiplies the accumulated value by the base.
proof fn lemma_accval_push(ds: Seq<u8>, d: u8, acc: int)
    ensures
        accval(ds.push(d), acc) == accval(ds, acc) * 100 + d,
    decreases ds.len(),
{
    if ds.len() == 0 {
        assert(ds.push(d).drop_first() =~= Seq::<u8>::empty());
        assert(ds.push(d)[0] == d);
        assert(accval(ds.push(d), acc) == accval(Seq::<u8>::empty(), acc * 100 + d));
        assert(accval(Seq::<u8>::empty(), acc * 100 + d) == acc * 100 + d);
        assert(accval(ds, acc) == acc);
    } else {
        assert(ds.push(d).drop_first() =~= ds.drop_first().push(d));
        assert(ds.push(d)[0] == ds[0]);
        lemma_accval_push(ds.drop_first(), d, acc * 100 + ds[0]);
        assert(accval(ds.push(d), acc) == accval(ds.drop_first().push(d), acc * 100 + ds[0]));
        assert(accval(ds, acc) == accval(ds.drop_first(), acc * 100 + ds[0]));
    }
}

/// Reading back the digits of `m`, most significant first, gives `m`.
proof fn lemma_accval_digits(m: int)
    requires
        m >= 0,
    ensures
        accval(digits_rev(m).reverse(), 0) == m,
    decreases m,
{
    if m == 0 {
        assert(digits_rev(0).reverse() =~= Seq::<u8>::empty());
    } else {
        lemma_accval_digits(m / 100);
        assert(digits_rev(m).reverse() =~= digits_rev(m / 100).reverse().push((m % 100) as u8));
        lemma_accval_push(digits_rev(m / 100).reverse(), (m % 100) as u8, 0);
    }
}

/// Round trip of a significand: reading the significand bytes of `m2`
/// (complemented for negative values) yields `m2` again, one digit pair per
/// byte.
pub proof fn lemma_sig_roundtrip(m2: int, neg: bool)
    requires
        m2 >= 1,
    ensures
        dec_sig(
            if neg {
                flip_seq(sig_bytes(m2))
            } else {
                sig_bytes(m2)
            },
            neg,
            0,
            0,
        ) == (SigDecode::Digits {
            m: m2,
            count: digits_rev(m2).len() as int,
            used: digits_rev(m2).len() as int,
        }),
{
    lemma_sig_bytes_marked(m2);
    lemma_digits_rev_bounds(m2);
    let ds = digits_rev(m2).reverse();
    assert forall|i: int| 0 <= i < ds.len() implies ds[i] <= 99 by {
        assert(ds[i] == digits_rev(m2)[ds.len() - 1 - i]);
    }
    lemma_dec_sig_marked(ds, 0, 0);
    lemma_accval_digits(m2);
    if neg {
        lemma_dec_sig_flip(sig_bytes(m2), 0, 0);
    }
}


// ---------------------------------------------------------------------------
// Arithmetic facts connecting digits, powers of ten and stripping
// ---------------------------------------------------------------------------

/// A positive number is its stripped core times ten to the count of its
/// trailing zeros.
pub proof fn lemma_strip_tz_value(m: int)
    requires
        m > 0,
    ensures
        m == strip_tz(m) * pow10(count_tz(m)),
    decreases m,
{
    if m % 10 != 0 {
        lemma_pow10_pos(0);
        assert(m == m * 1);
    } else {
        lemma_strip_tz_value(m / 10);
        assert(m == (m / 10) * 10);
        assert(pow10(count_tz(m)) == 10 * pow10(count_tz(m / 10)));
        let st = strip_tz(m / 10);
        let p = pow10(count_tz(m / 10));
        assert((st * p) * 10 == st * (10 * p)) by (nonlinear_arith);
    }
}

/// A hundredfold division removes two digits.
proof fn lemma_num_digits_div100(m: int)
    requires
        m >= 100,
    ensures
        num_digits(m) == 2 + num_digits(m / 100),
{
    assert(num_digits(m) == 1 + num_digits(m / 10));
    assert(m / 10 >= 10int) by (nonlinear_arith)
        requires
            m >= 100,
    ;
    assert(num_digits(m / 10) == 1 + num_digits(m / 10 / 10));
    vstd::arithmetic::div_mod::lemma_div_denominator(m, 10, 10);
}

/// Each base-100 digit covers two decimal digits, the top one possibly
/// only one.
proof fn lemma_digits_rev_len(m: int)
    requires
        m >= 1,
    ensures
        digits_rev(m).len() == (num_digits(m) + 1) / 2,
    decreases m,
{
    if m < 100 {
        assert(m / 100 == 0int) by (nonlinear_arith)
            requires
                1 <= m < 100,
        ;
        assert(digits_rev(m / 100) =~= Seq::<u8>::empty());
        assert(digits_rev(m).len() == 1);
        if m >= 10 {
            assert(1int <= m / 10 && m / 10 < 10) by (nonlinear_arith)
                requires
                    10 <= m < 100,
            ;
            assert(m / 10 / 10 == 0int) by (nonlinear_arith)
                requires
                    1 <= m / 10 < 10,
            ;
            assert(num_digits(m / 10 / 10) == 0);
            assert(num_digits(m / 10) == 1);
            assert(num_digits(m) == 2);
        } else {
            assert(m / 10 == 0int) by (nonlinear_arith)
                requires
                    1 <= m < 10,
            ;
            assert(num_digits(m) == 1);
        }
    } else {
        lemma_num_digits_div100(m);
        assert(m / 100 >= 1int) by (nonlinear_arith)
            requires
                m >= 100,
        ;
        lemma_digits_rev_len(m / 100);
        assert(digits_rev(m).len() == 1 + digits_rev(m / 100).len());
    }
}

/// Multiplying by ten adds one digit.
proof fn lemma_num_digits_times10(m: int)
    requires
        m >= 1,
    ensures
        num_digits(m * 10) == 1 + num_digits(m),
{
    assert(m * 10 > 0) by (nonlinear_arith)
        requires
            m >= 1,
    ;
    vstd::arithmetic::div_mod::lemma_div_multiples_vanish(m, 10);
    assert((10 * m) / 10 == m);
    assert(m * 10 == 10 * m);
}


// ---------------------------------------------------------------------------
// Round trip of a whole decimal
// ---------------------------------------------------------------------------

/// The value a non-zero normalized decimal round-trips to: trailing zeros
/// of the mantissa are dropped, and when the significant digits end at or
/// before the decimal point the value collapses to an integer of scale 0.
pub open spec fn canonical(mantissa: i128, scale: u32) -> (int, int) {
    let a = abs_mantissa(mantissa);
    let z = count_tz(a) as int;
    let m1 = strip_tz(a);
    let pad = dec_digit_count(a, scale) % 2;
    if scale + pad - z <= 0 {
        (m1 * pow10((z - scale) as nat), 0)
    } else {
        (m1, scale - z)
    }
}

/// The decoder's scale adjustment, applied to what the encoder produced
/// for the magnitude `a`, lands on the canonical mantissa and scale.
proof fn lemma_adjust_canonical(a: int, scale: u32)
    requires
        1 <= a < 0x1000000000000000000000000,
        scale <= 28,
    ensures
        ({
            let e = dec_e100(dec_e10(a, scale));
            let m2 = dec_sig_mantissa(a, scale);
            let count = digits_rev(m2).len() as int;
            let z = count_tz(a) as int;
            let m1 = strip_tz(a);
            let pad = dec_digit_count(a, scale) % 2;
            &&& 1 <= m2 <= 0x7fffffffffffffffffffffffffffffff
            &&& 1 <= count <= 16
            &&& -13 <= e <= 15
            &&& 0 <= z
            &&& 1 <= m1 <= a
            &&& 0 <= pad <= 1
            &&& (count - e) * 2 == scale + pad - z
            &&& (scale + pad - z <= 0 ==> z - scale >= 0 && dec_scale_adjust(m2, count, e) == (
            m1 * pow10((z - scale) as nat), 0int) && 1 <= m1 * pow10((z - scale) as nat) <= a)
            &&& (scale + pad - z > 0 ==> 0 <= scale - z <= 28 && dec_scale_adjust(m2, count, e)
                == (m1, scale - z))
        }),
{
    let prec = num_digits(a) as int;
    assert(pow10(29) == 0x1431E0FAE6D7217CAA0000000int) by {
        reveal_with_fuel(pow10, 30);
    }
    lemma_num_digits_bound(a, 29);
    assert(prec >= 1);
    lemma_strip_tz(a);
    lemma_strip_tz_value(a);
    let z = count_tz(a) as int;
    let m1 = strip_tz(a);
    let e10 = prec - scale;
    let e = dec_e100(e10);
    assert(-27 <= e10 <= 29);
    let t: int = if e10 == 2 * e {
        0int
    } else {
        1int
    };
    // the exponent takes digits in pairs: p - 2e == scale, with p = prec + t
    assert(e10 == 2 * (e10 / 2) + e10 % 2);
    assert(0 <= e10 % 2 < 2);
    if e10 >= 0 {
        assert(e == (e10 + 1) / 2);
        assert(e10 + 1 == 2 * ((e10 + 1) / 2) + (e10 + 1) % 2);
    } else {
        assert(e == -((-e10) / 2));
        assert(-e10 == 2 * ((-e10) / 2) + (-e10) % 2);
    }
    assert(prec + t - 2 * e == scale);
    let p = prec + t;
    assert(dec_digit_count(a, scale) == p - z);
    let dc = p - z;
    assert(z < prec);
    assert(dc >= 1);
    let pad = dc % 2;
    assert(dc == 2 * (dc / 2) + pad);
    let m2 = dec_sig_mantissa(a, scale);
    let n = prec - z;
    assert(num_digits(m1) == n);
    if pad == 1 {
        assert(m2 == m1 * 10);
        lemma_num_digits_times10(m1);
        assert(num_digits(m2) == n + 1);
    } else {
        assert(m2 == m1);
        assert(num_digits(m2) == n);
    }
    assert(m2 >= 1);
    assert(m2 <= a * 10);
    lemma_digits_rev_len(m2);
    let count = digits_rev(m2).len() as int;
    assert(count == (num_digits(m2) + 1) / 2);
    // the padded digit count is even, and the pair count is half of it
    assert(n + t + pad == 2 * ((n + t) / 2 + pad)) by {
        assert(n + t == 2 * ((n + t) / 2) + (n + t) % 2);
        assert((n + t) % 2 == pad);
    }
    assert(2 * count == n + t + pad) by {
        let nd = num_digits(m2) as int;
        assert(nd == n + pad);
        assert(nd + 1 == 2 * ((nd + 1) / 2) + (nd + 1) % 2);
        assert(nd == 2 * (nd / 2) + nd % 2);
    }
    assert((count - e) * 2 == scale + pad - z);
    assert(count <= 16);
    // the adjustment itself
    let scale0 = (count - e) * 2;
    if scale0 <= 0 {
        assert(dec_scale_adjust(m2, count, e) == (m2 * pow10((-scale0) as nat), 0int));
        assert(z - scale >= pad);
        let k = (z - scale - pad) as nat;
        if pad == 1 {
            assert(pow10((z - scale) as nat) == 10 * pow10(k));
            assert((m1 * 10) * pow10(k) == m1 * (10 * pow10(k))) by (nonlinear_arith);
            assert(m2 * pow10((-scale0) as nat) == m1 * pow10((z - scale) as nat));
        } else {
            assert(m2 * pow10((-scale0) as nat) == m1 * pow10((z - scale) as nat));
        }
        // the padded value never exceeds the original magnitude
        lemma_pow10_mono((z - scale) as nat, z as nat);
        lemma_pow10_pos((z - scale) as nat);
        vstd::arithmetic::mul::lemma_mul_inequality(
            pow10((z - scale) as nat),
            pow10(z as nat),
            m1,
        );
        vstd::arithmetic::mul::lemma_mul_is_commutative(pow10((z - scale) as nat), m1);
        vstd::arithmetic::mul::lemma_mul_is_commutative(pow10(z as nat), m1);
        assert(a == m1 * pow10(z as nat));
        vstd::arithmetic::mul::lemma_mul_ordering(m1, pow10((z - scale) as nat));
        assert(1 <= m1 * pow10((z - scale) as nat) <= a);
    } else {
        assert(scale - z >= 0);
        if pad == 1 {
            assert(m2 == m1 * 10);
            vstd::arithmetic::div_mod::lemma_mod_multiples_basic(m1, 10);
            vstd::arithmetic::div_mod::lemma_div_multiples_vanish(m1, 10);
            assert(m1 * 10 == 10 * m1);
            assert(m2 % 10 == 0);
            assert(m2 / 10 == m1);
            assert(dec_scale_adjust(m2, count, e) == (m1, scale0 - 1));
        } else {
            assert(m2 == m1);
            assert(m1 % 10 != 0);
            assert(dec_scale_adjust(m2, count, e) == (m1, scale0));
        }
    }
}


/// Round trip of a decimal: decoding the encoding of a non-zero normalized
/// value yields its canonical form, consuming exactly the encoding; the
/// decode also stays within the decoder's arithmetic bounds.  Values whose
/// mantissa has no trailing zeros round-trip exactly.
pub proof fn lemma_decimal_roundtrip(mantissa: i128, scale: u32)
    requires
        (Decimal::Normalized { mantissa, scale }).wf(),
        mantissa != 0,
    ensures
        ({
            let d = Decimal::Normalized { mantissa, scale };
            let c = canonical(mantissa, scale);
            let mf = if mantissa > 0 {
                c.0
            } else {
                -c.0
            };
            &&& dec_decimal(enc_decimal(d)) == (DecimalDecode::Val {
                d: Decimal::Normalized { mantissa: mf as i128, scale: c.1 as u32 },
                used: enc_decimal(d).len() as int,
            })
            &&& dec_decimal_fits(enc_decimal(d))
            &&& (Decimal::Normalized { mantissa: mf as i128, scale: c.1 as u32 }).wf()
        }),
{
    let d = Decimal::Normalized { mantissa, scale };
    let a = abs_mantissa(mantissa);
    let e = dec_e100(dec_e10(a, scale));
    let m2 = dec_sig_mantissa(a, scale);
    let sig = sig_bytes(m2);
    let s = enc_decimal(d);
    let neg = mantissa < 0;
    lemma_adjust_canonical(a, scale);
    let count = digits_rev(m2).len() as int;
    lemma_sig_roundtrip(m2, neg);
    lemma_cent_rev_digits(m2);
    assert(sig.len() == count);
    let sigpart = if neg {
        flip_seq(sig)
    } else {
        sig
    };
    assert(sigpart.len() == count);
    // the flag bytes of each arm, and what the decoder reads back from them
    let flag = s[0];
    let hdr: int = if flag_two_bytes(flag) {
        2
    } else {
        1
    };
    if mantissa > 0 {
        if e >= 11 {
            assert(s =~= seq![0x22u8, e as u8] + sig);
            assert(flag == 0x22 && s[1] == e as u8);
            assert(flag_exponent(0x22, e as u8) == e);
        } else if e >= 0 {
            assert(s =~= seq![(0x17 + e) as u8] + sig);
            assert(0x17 <= flag <= 0x21);
            assert(!flag_two_bytes(flag));
            assert(flag - 0x17 == e);
        } else {
            assert(s =~= seq![0x16u8, (255 + e) as u8] + sig);
            assert(flag == 0x16 && s[1] == (255 + e) as u8);
            assert(242 <= s[1] <= 254);
            assert(flag_exponent(0x16, s[1]) == e);
        }
        assert(!(0x08 <= flag <= 0x14));
    } else {
        if e >= 11 {
            assert(s =~= seq![0x08u8, (255 - e) as u8] + sigpart);
            assert(flag == 0x08 && s[1] == (255 - e) as u8);
            assert(240 <= s[1] <= 244);
            assert(flag_exponent(0x08, s[1]) == e);
        } else if e >= 0 {
            assert(s =~= seq![(0x13 - e) as u8] + sigpart);
            assert(0x09 <= flag <= 0x13);
            assert(!flag_two_bytes(flag));
            assert(0x13 - flag == e);
        } else {
            assert(s =~= seq![0x14u8, (-e) as u8] + sigpart);
            assert(flag == 0x14 && s[1] == (-e) as u8);
            assert(1 <= s[1] <= 13);
            assert(flag_exponent(0x14, s[1]) == e);
        }
        assert(0x08 <= flag <= 0x14);
    }
    assert(flag != 0x06 && flag != 0x07 && flag != 0x15 && flag != 0x23);
    assert(0x06 <= flag <= 0x23);
    assert(s.len() == hdr + count);
    assert(s.skip(hdr) =~= sigpart);
    assert(dec_exponent(flag, if s.len() >= 2 {
        s[1]
    } else {
        0
    }) == e);
    assert(dec_sig(s.skip(hdr), neg, 0, 0) == (SigDecode::Digits {
        m: m2,
        count: count,
        used: count,
    }));
    // assembled: the decoder's outcome
    let z = count_tz(a) as int;
    let m1 = strip_tz(a);
    let pad = dec_digit_count(a, scale) % 2;
    let c = canonical(mantissa, scale);
    let scale0 = (count - e) * 2;
    assert(scale0 == scale + pad - z);
    if scale0 <= 0 {
        assert(c == (m1 * pow10((z - scale) as nat), 0int));
    } else {
        assert(c == (m1, scale - z));
    }
    assert(dec_scale_adjust(m2, count, e) == c);
    assert(1 <= c.0 < 0x1000000000000000000000000);
    assert(0 <= c.1 <= 28);
    let mf = if mantissa > 0 {
        c.0
    } else {
        -c.0
    };
    assert(dec_decimal(s) == (DecimalDecode::Val {
        d: Decimal::Normalized { mantissa: mf as i128, scale: c.1 as u32 },
        used: hdr + count,
    }));
    // the decoder's arithmetic bounds hold on this input
    assert(dec_decimal_fits(s));
}

/// When the mantissa carries no trailing decimal zeros, the round trip is
/// exact: decode(encode(d)) == d.
pub proof fn lemma_decimal_roundtrip_exact(mantissa: i128, scale: u32)
    requires
        (Decimal::Normalized { mantissa, scale }).wf(),
        mantissa != 0,
        count_tz(abs_mantissa(mantissa)) == 0,
    ensures
        dec_decimal(enc_decimal(Decimal::Normalized { mantissa, scale }))
            == (DecimalDecode::Val {
            d: Decimal::Normalized { mantissa, scale },
            used: enc_decimal(Decimal::Normalized { mantissa, scale }).len() as int,
        }),
{
    lemma_decimal_roundtrip(mantissa, scale);
    let a = abs_mantissa(mantissa);
    assert(strip_tz(a) == a);
    let pad = dec_digit_count(a, scale) % 2;
    let c = canonical(mantissa, scale);
    if scale + pad <= 0 {
        assert(scale == 0);
        assert(pow10(0nat) == 1);
        assert(a * 1 == a);
        assert(c == (a, 0int));
    } else {
        assert(c == (a, scale as int));
    }
}


// ---------------------------------------------------------------------------
// Bucket order
// ---------------------------------------------------------------------------

/// The numeric bucket of a decimal: NaN sorts below everything, then
/// negative infinity, negative values, zero, positive values, and infinity.
pub open spec fn dec_bucket(d: Decimal) -> int {
    match d {
        Decimal::NaN => 0,
        Decimal::NegInf => 1,
        Decimal::Normalized { mantissa, .. } => {
            if mantissa < 0 {
                2
            } else if mantissa == 0 {
                3
            } else {
                4
            }
        },
        Decimal::Inf => 5,
    }
}

/// The flag byte of a decimal encoding lies in its bucket's range.
proof fn lemma_decimal_flag_range(d: Decimal)
    requires
        d.wf(),
    ensures
        enc_decimal(d).len() >= 1,
        dec_bucket(d) == 0 ==> enc_decimal(d)[0] == 0x06,
        dec_bucket(d) == 1 ==> enc_decimal(d)[0] == 0x07,
        dec_bucket(d) == 2 ==> 0x08 <= enc_decimal(d)[0] <= 0x14,
        dec_bucket(d) == 3 ==> enc_decimal(d)[0] == 0x15,
        dec_bucket(d) == 4 ==> 0x16 <= enc_decimal(d)[0] <= 0x22,
        dec_bucket(d) == 5 ==> enc_decimal(d)[0] == 0x23,
{
    match d {
        Decimal::Normalized { mantissa, scale } => {
            if mantissa != 0 {
                lemma_adjust_canonical(abs_mantissa(mantissa), scale);
            }
        },
        _ => {},
    }
}

/// Decimal encodings order by bucket: between values of different buckets
/// the very first byte decides, in numeric order.
pub proof fn lemma_decimal_bucket_order(d1: Decimal, d2: Decimal)
    requires
        d1.wf(),
        d2.wf(),
        dec_bucket(d1) < dec_bucket(d2),
    ensures
        crate::order::lex_lt(enc_decimal(d1), enc_decimal(d2)),
{
    lemma_decimal_flag_range(d1);
    lemma_decimal_flag_range(d2);
    crate::order::lemma_lex_diff(enc_decimal(d1), enc_decimal(d2), 0);
}

} // verus!








