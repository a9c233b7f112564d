use memcomparable::{Deserializer, Error, Serializer};
use rand::Rng;

// ---------------------------------------------------------------------------
// Helpers: encode or decode one value, checking for trailing bytes on decode
// as a top-level decode does.
// ---------------------------------------------------------------------------

fn finish<T>(de: Deserializer, v: T) -> Result<T, Error> {
    if de.has_remaining() {
        Err(Error::TrailingCharacters)
    } else {
        Ok(v)
    }
}

fn decode_unit(bytes: &[u8]) -> Result<(), Error> {
    let mut de = Deserializer::new(bytes);
    let v = de.deserialize_unit()?;
    finish(de, v)
}

fn decode_bool(bytes: &[u8]) -> Result<bool, Error> {
    let mut de = Deserializer::new(bytes);
    let v = de.deserialize_bool()?;
    finish(de, v)
}

fn decode_option_u8(bytes: &[u8]) -> Result<Option<u8>, Error> {
    let mut de = Deserializer::new(bytes);
    let v = if de.deserialize_option_tag()? {
        Some(de.deserialize_u8()?)
    } else {
        None
    };
    finish(de, v)
}

fn decode_vec_u8(bytes: &[u8]) -> Result<Vec<u8>, Error> {
    let mut de = Deserializer::new(bytes);
    let mut v = Vec::new();
    while de.deserialize_seq_element_tag()? {
        v.push(de.deserialize_u8()?);
    }
    finish(de, v)
}

fn decode_string(bytes: &[u8]) -> Result<String, Error> {
    let mut de = Deserializer::new(bytes);
    let v = de.deserialize_string()?;
    finish(de, v)
}

fn encode_str(s: &str) -> Vec<u8> {
    let mut ser = Serializer::new(vec![]);
    ser.serialize_str(s).unwrap();
    ser.into_inner()
}

// ---------------------------------------------------------------------------
// Decoding
// ---------------------------------------------------------------------------

#[test]
fn de_test_unit() {
    assert_eq!(decode_unit(&[]), Ok(()));
    assert_eq!(decode_unit(&[0]), Err(Error::TrailingCharacters));
    // a unit struct carries no bytes either
    assert_eq!(decode_unit(&[]).unwrap(), ());
}

#[test]
fn test_bool() {
    assert_eq!(decode_bool(&[0]), Ok(false));
    assert_eq!(decode_bool(&[1]), Ok(true));
    assert_eq!(decode_bool(&[2]), Err(Error::InvalidBoolEncoding(2)));
}

#[test]
fn de_test_option() {
    assert_eq!(decode_option_u8(&[0]).unwrap(), None);
    assert_eq!(decode_option_u8(&[1, 0x12]).unwrap(), Some(0x12));
}

#[test]
fn de_test_tuple() {
    let mut de = Deserializer::new(
        &[
            0x92, 0x92, 0x34, 0x92, 0x34, 0x56, 0x78, 0x92, 0x34, 0x56, 0x78, 0x87, 0x65, 0x43,
            0x21,
        ][..],
    );
    let tuple = (
        de.deserialize_i8().unwrap(),
        de.deserialize_i16().unwrap(),
        de.deserialize_i32().unwrap(),
        de.deserialize_i64().unwrap(),
    );
    assert!(!de.has_remaining());
    assert_eq!(tuple, (0x12, 0x1234, 0x12345678, 0x1234_5678_8765_4321));

    let mut de = Deserializer::new(
        &[
            0x12, 0x12, 0x34, 0x12, 0x34, 0x56, 0x78, 0x12, 0x34, 0x56, 0x78, 0x87, 0x65, 0x43,
            0x21,
        ][..],
    );
    let tuple = (
        de.deserialize_u8().unwrap(),
        de.deserialize_u16().unwrap(),
        de.deserialize_u32().unwrap(),
        de.deserialize_u64().unwrap(),
    );
    assert!(!de.has_remaining());
    assert_eq!(tuple, (0x12, 0x1234, 0x12345678, 0x1234_5678_8765_4321));

    // a newtype wrapper is transparent: its char payload is the whole value
    let mut de = Deserializer::new(&[0, 0, 0, b'G'][..]);
    assert_eq!(de.deserialize_char().unwrap(), 'G');
    assert!(!de.has_remaining());
}

#[test]
fn de_test_vec() {
    assert_eq!(
        decode_vec_u8(&[1, 0x01, 1, 0x02, 1, 0x03, 0]).unwrap(),
        vec![1, 2, 3]
    );
    assert_eq!(
        decode_vec_u8(&[1, 0x01, 2]),
        Err(Error::InvalidSeqEncoding(2))
    );
}

#[test]
fn de_test_enum() {
    // enum { Unit, NewType(u8), Tuple(u8, u8), Struct { a: u8, b: u8 } }
    let mut de = Deserializer::new(&[0][..]);
    assert_eq!(de.deserialize_variant().unwrap(), 0);
    assert!(!de.has_remaining());

    let mut de = Deserializer::new(&[1, 0x12][..]);
    assert_eq!(de.deserialize_variant().unwrap(), 1);
    assert_eq!(de.deserialize_u8().unwrap(), 0x12);
    assert!(!de.has_remaining());

    let mut de = Deserializer::new(&[2, 0x12, 0x34][..]);
    assert_eq!(de.deserialize_variant().unwrap(), 2);
    assert_eq!(de.deserialize_u8().unwrap(), 0x12);
    assert_eq!(de.deserialize_u8().unwrap(), 0x34);
    assert!(!de.has_remaining());

    let mut de = Deserializer::new(&[3, 0x12, 0x34][..]);
    assert_eq!(de.deserialize_variant().unwrap(), 3);
    assert_eq!(de.deserialize_u8().unwrap(), 0x12);
    assert_eq!(de.deserialize_u8().unwrap(), 0x34);
    assert!(!de.has_remaining());
}

#[test]
fn de_test_struct() {
    // struct { a: bool, b: f32, c: f64 }
    let mut de = Deserializer::new(&[1, 0x80, 0, 0, 0, 0x80, 0, 0, 0, 0, 0, 0, 0][..]);
    let a = de.deserialize_bool().unwrap();
    let b = f32::from_bits(de.deserialize_f32_bits().unwrap());
    let c = f64::from_bits(de.deserialize_f64_bits().unwrap());
    assert!(!de.has_remaining());
    assert_eq!((a, b, c), (true, 0.0, 0.0));
}

#[test]
fn de_test_string() {
    assert_eq!(decode_string(&[0]).unwrap(), "".to_string());
    assert_eq!(
        decode_string(&[1, b'1', b'2', b'3', 0, 0, 0, 0, 0, 3]).unwrap(),
        "123".to_string()
    );
    assert_eq!(
        decode_string(&[1, b'1', b'2', b'3', b'4', b'5', b'6', b'7', b'8', 8]).unwrap(),
        "12345678".to_string()
    );
    assert_eq!(
        decode_string(&[
            1, b'1', b'2', b'3', b'4', b'5', b'6', b'7', b'8', 9, b'9', b'0', 0, 0, 0, 0, 0, 0, 2
        ])
        .unwrap(),
        "1234567890".to_string()
    );
    assert_eq!(
        decode_string(&[1, 0, 0, 0, 0, 0, 0, 0, 0, 10]),
        Err(Error::InvalidBytesEncoding(10))
    );
    assert_eq!(decode_string(&[2]), Err(Error::InvalidBytesEncoding(2)));
}

// ---------------------------------------------------------------------------
// Encoding
// ---------------------------------------------------------------------------

#[test]
fn ser_test_unit() {
    let mut ser = Serializer::new(vec![]);
    ser.serialize_unit().unwrap();
    assert_eq!(ser.into_inner(), Vec::<u8>::new());

    // a unit struct contributes no bytes either
    let mut ser = Serializer::new(vec![]);
    ser.serialize_unit().unwrap();
    assert_eq!(ser.into_inner(), Vec::<u8>::new());
}

#[test]
fn ser_test_option() {
    let mut ser = Serializer::new(vec![]);
    ser.serialize_none().unwrap();
    assert_eq!(ser.into_inner(), [0]);

    let mut ser = Serializer::new(vec![]);
    ser.serialize_some_tag().unwrap();
    ser.serialize_u8(0x12).unwrap();
    assert_eq!(ser.into_inner(), [1, 0x12]);
}

#[test]
fn ser_test_tuple() {
    let mut ser = Serializer::new(vec![]);
    ser.serialize_i8(0x12).unwrap();
    ser.serialize_i16(0x1234).unwrap();
    ser.serialize_i32(0x12345678).unwrap();
    ser.serialize_i64(0x1234_5678_8765_4321).unwrap();
    ser.serialize_i128(0x0123_4567_89ab_cdef_fedc_ba98_7654_3210)
        .unwrap();
    assert_eq!(
        ser.into_inner(),
        [
            0x92, 0x92, 0x34, 0x92, 0x34, 0x56, 0x78, 0x92, 0x34, 0x56, 0x78, 0x87, 0x65, 0x43,
            0x21, 0x81, 0x23, 0x45, 0x67, 0x89, 0xab, 0xcd, 0xef, 0xfe, 0xdc, 0xba, 0x98, 0x76,
            0x54, 0x32, 0x10,
        ]
    );

    let mut ser = Serializer::new(vec![]);
    ser.serialize_u8(0x12).unwrap();
    ser.serialize_u16(0x1234).unwrap();
    ser.serialize_u32(0x12345678).unwrap();
    ser.serialize_u64(0x1234_5678_8765_4321).unwrap();
    ser.serialize_u128(0x0123_4567_89ab_cdef_fedc_ba98_7654_3210)
        .unwrap();
    assert_eq!(
        ser.into_inner(),
        [
            0x12, 0x12, 0x34, 0x12, 0x34, 0x56, 0x78, 0x12, 0x34, 0x56, 0x78, 0x87, 0x65, 0x43,
            0x21, 0x01, 0x23, 0x45, 0x67, 0x89, 0xab, 0xcd, 0xef, 0xfe, 0xdc, 0xba, 0x98, 0x76,
            0x54, 0x32, 0x10,
        ]
    );

    // a newtype wrapper is transparent
    let mut ser = Serializer::new(vec![]);
    ser.serialize_char('G').unwrap();
    assert_eq!(ser.into_inner(), [0, 0, 0, b'G']);
}

#[test]
fn ser_test_vec() {
    let s: &[u8] = &[1, 2, 3];
    let mut ser = Serializer::new(vec![]);
    for &b in s {
        ser.serialize_seq_element_tag().unwrap();
        ser.serialize_u8(b).unwrap();
    }
    ser.serialize_seq_end().unwrap();
    assert_eq!(ser.into_inner(), [1, 0x01, 1, 0x02, 1, 0x03, 0]);
}

#[test]
fn ser_test_enum() {
    // enum { Unit, NewType(u8), Tuple(u8, u8), Struct { a: u8, b: u8 } }
    let mut ser = Serializer::new(vec![]);
    ser.serialize_variant(0).unwrap();
    assert_eq!(ser.into_inner(), [0]);

    let mut ser = Serializer::new(vec![]);
    ser.serialize_variant(1).unwrap();
    ser.serialize_u8(0x12).unwrap();
    assert_eq!(ser.into_inner(), [1, 0x12]);

    let mut ser = Serializer::new(vec![]);
    ser.serialize_variant(2).unwrap();
    ser.serialize_u8(0x12).unwrap();
    ser.serialize_u8(0x34).unwrap();
    assert_eq!(ser.into_inner(), [2, 0x12, 0x34]);

    let mut ser = Serializer::new(vec![]);
    ser.serialize_variant(3).unwrap();
    ser.serialize_u8(0x12).unwrap();
    ser.serialize_u8(0x34).unwrap();
    assert_eq!(ser.into_inner(), [3, 0x12, 0x34]);
}

fn encode_test_struct(a: bool, b: f32, c: f64) -> Vec<u8> {
    let mut ser = Serializer::new(vec![]);
    ser.serialize_bool(a).unwrap();
    ser.serialize_f32_bits(b.to_bits()).unwrap();
    ser.serialize_f64_bits(c.to_bits()).unwrap();
    ser.into_inner()
}

#[test]
fn ser_test_struct() {
    assert_eq!(
        encode_test_struct(true, 0.0, 0.0),
        [1, 0x80, 0, 0, 0, 0x80, 0, 0, 0, 0, 0, 0, 0]
    );
}

#[test]
fn test_struct_order() {
    #[derive(PartialEq, PartialOrd)]
    struct Test {
        a: bool,
        b: f32,
        c: f64,
    }

    for _ in 0..1000 {
        let mut rng = rand::thread_rng();
        let a = Test {
            a: rng.gen(),
            b: rng.gen(),
            c: rng.gen(),
        };
        let b = Test {
            a: if rng.gen_bool(0.5) { a.a } else { rng.gen() },
            b: if rng.gen_bool(0.5) {
                a.b
            } else {
                rng.gen_range(-1.0..1.0)
            },
            c: if rng.gen_bool(0.5) {
                a.c
            } else {
                rng.gen_range(-1.0..1.0)
            },
        };
        let ea = encode_test_struct(a.a, a.b, a.c);
        let eb = encode_test_struct(b.a, b.b, b.c);
        assert_eq!(a.partial_cmp(&b), ea.partial_cmp(&eb));
    }
}

#[test]
fn ser_test_string() {
    assert_eq!(encode_str(""), [0]);
    assert_eq!(encode_str("123"), [1, b'1', b'2', b'3', 0, 0, 0, 0, 0, 3]);
    assert_eq!(
        encode_str("12345678"),
        [1, b'1', b'2', b'3', b'4', b'5', b'6', b'7', b'8', 8]
    );
    assert_eq!(
        encode_str("1234567890"),
        [1, b'1', b'2', b'3', b'4', b'5', b'6', b'7', b'8', 9, b'9', b'0', 0, 0, 0, 0, 0, 0, 2]
    );
}

#[test]
fn test_string_order() {
    fn to_vec_desc(s: &str) -> Vec<u8> {
        let mut ser = Serializer::new(vec![]);
        ser.set_reverse(true);
        ser.serialize_str(s).unwrap();
        ser.into_inner()
    }

    fn rand_string(len_range: core::ops::Range<usize>) -> String {
        let mut rng = rand::thread_rng();
        let len = rng.gen_range(len_range);
        rng.sample_iter(&rand::distributions::Alphanumeric)
            .take(len)
            .map(char::from)
            .collect()
    }

    for _ in 0..1000 {
        let s = rand_string(0..16);
        let a = s.clone() + &rand_string(0..16);
        let b = s + &rand_string(0..16);

        let ea = encode_str(&a);
        let eb = encode_str(&b);
        assert_eq!(a.cmp(&b), ea.cmp(&eb));

        let ra = to_vec_desc(&a);
        let rb = to_vec_desc(&b);
        assert_eq!(a.cmp(&b), ra.cmp(&rb).reverse());
    }
}

#[test]
fn test_reverse_order() {
    // Order: (ASC, DESC)
    let v1 = (0u8, 1i32);
    let v2 = (0u8, -1i32);
    let v3 = (1u8, -1i32);

    fn serialize(v: (u8, i32)) -> Vec<u8> {
        let mut ser = Serializer::new(vec![]);
        ser.serialize_u8(v.0).unwrap();
        ser.set_reverse(true);
        ser.serialize_i32(v.1).unwrap();
        ser.into_inner()
    }
    assert!(serialize(v1) < serialize(v2));
    assert!(serialize(v2) < serialize(v3));
}

// ---------------------------------------------------------------------------
// Round trips of every scalar, and the remaining error variants
// ---------------------------------------------------------------------------

#[test]
fn test_scalar_roundtrips() {
    let mut ser = Serializer::new(vec![]);
    ser.serialize_bool(true).unwrap();
    ser.serialize_u8(0xab).unwrap();
    ser.serialize_u16(0xabcd).unwrap();
    ser.serialize_u32(0xdead_beef).unwrap();
    ser.serialize_u64(0x0123_4567_89ab_cdef).unwrap();
    ser.serialize_u128(0xfeed_face_0123_4567_89ab_cdef_0011_2233)
        .unwrap();
    ser.serialize_i8(-100).unwrap();
    ser.serialize_i16(-30000).unwrap();
    ser.serialize_i32(-2_000_000_000).unwrap();
    ser.serialize_i64(-9_000_000_000_000_000_000).unwrap();
    ser.serialize_i128(-170_000_000_000_000_000_000_000_000_000_000_000_000)
        .unwrap();
    ser.serialize_char('\u{1F600}').unwrap();
    ser.serialize_str("snowman \u{2603}").unwrap();
    let bytes = ser.into_inner();

    let mut de = Deserializer::new(&bytes[..]);
    assert_eq!(de.deserialize_bool().unwrap(), true);
    assert_eq!(de.deserialize_u8().unwrap(), 0xab);
    assert_eq!(de.deserialize_u16().unwrap(), 0xabcd);
    assert_eq!(de.deserialize_u32().unwrap(), 0xdead_beef);
    assert_eq!(de.deserialize_u64().unwrap(), 0x0123_4567_89ab_cdef);
    assert_eq!(
        de.deserialize_u128().unwrap(),
        0xfeed_face_0123_4567_89ab_cdef_0011_2233
    );
    assert_eq!(de.deserialize_i8().unwrap(), -100);
    assert_eq!(de.deserialize_i16().unwrap(), -30000);
    assert_eq!(de.deserialize_i32().unwrap(), -2_000_000_000);
    assert_eq!(de.deserialize_i64().unwrap(), -9_000_000_000_000_000_000);
    assert_eq!(
        de.deserialize_i128().unwrap(),
        -170_000_000_000_000_000_000_000_000_000_000_000_000
    );
    assert_eq!(de.deserialize_char().unwrap(), '\u{1F600}');
    assert_eq!(de.deserialize_string().unwrap(), "snowman \u{2603}");
    assert!(!de.has_remaining());
}

#[test]
fn test_float_roundtrips() {
    for v in [0.0f32, -0.0, 1.5, -1.5, f32::INFINITY, f32::NEG_INFINITY] {
        let mut ser = Serializer::new(vec![]);
        ser.serialize_f32_bits(v.to_bits()).unwrap();
        let bytes = ser.into_inner();
        let mut de = Deserializer::new(&bytes[..]);
        let back = f32::from_bits(de.deserialize_f32_bits().unwrap());
        // zeros are normalised to +0.0 on encode
        assert_eq!(back, if v == 0.0 { 0.0 } else { v });
        assert_eq!(back.is_sign_negative(), v.is_sign_negative() && v != 0.0);
    }
    for v in [0.0f64, -0.0, 2.25, -2.25, f64::INFINITY, f64::NEG_INFINITY] {
        let mut ser = Serializer::new(vec![]);
        ser.serialize_f64_bits(v.to_bits()).unwrap();
        let bytes = ser.into_inner();
        let mut de = Deserializer::new(&bytes[..]);
        let back = f64::from_bits(de.deserialize_f64_bits().unwrap());
        assert_eq!(back, if v == 0.0 { 0.0 } else { v });
    }
    // every NaN becomes the canonical NaN
    let mut ser = Serializer::new(vec![]);
    ser.serialize_f32_bits(f32::NAN.to_bits()).unwrap();
    let bytes = ser.into_inner();
    let mut de = Deserializer::new(&bytes[..]);
    assert!(f32::from_bits(de.deserialize_f32_bits().unwrap()).is_nan());
}

#[test]
fn test_int_order() {
    let i16s: [i16; 6] = [i16::MIN, -300, -1, 0, 7, i16::MAX];
    for i in 0..i16s.len() {
        for j in 0..i16s.len() {
            let mut sa = Serializer::new(vec![]);
            sa.serialize_i16(i16s[i]).unwrap();
            let mut sb = Serializer::new(vec![]);
            sb.serialize_i16(i16s[j]).unwrap();
            assert_eq!(i16s[i].cmp(&i16s[j]), sa.into_inner().cmp(&sb.into_inner()));
        }
    }
    let u64s: [u64; 5] = [0, 1, 0xff, 0x100, u64::MAX];
    for i in 0..u64s.len() {
        for j in 0..u64s.len() {
            let mut sa = Serializer::new(vec![]);
            sa.serialize_u64(u64s[i]).unwrap();
            let mut sb = Serializer::new(vec![]);
            sb.serialize_u64(u64s[j]).unwrap();
            assert_eq!(u64s[i].cmp(&u64s[j]), sa.into_inner().cmp(&sb.into_inner()));
        }
    }
}

#[test]
fn test_float_order() {
    let floats: [f32; 7] = [
        f32::NEG_INFINITY,
        -10.5,
        -0.0,
        0.0,
        1.0e-30,
        3.25,
        f32::INFINITY,
    ];
    for i in 0..floats.len() {
        for j in 0..floats.len() {
            let mut sa = Serializer::new(vec![]);
            sa.serialize_f32_bits(floats[i].to_bits()).unwrap();
            let mut sb = Serializer::new(vec![]);
            sb.serialize_f32_bits(floats[j].to_bits()).unwrap();
            let byte_order = sa.into_inner().cmp(&sb.into_inner());
            if floats[i] == floats[j] {
                assert!(byte_order.is_eq());
            } else {
                assert_eq!(floats[i].partial_cmp(&floats[j]).unwrap(), byte_order);
            }
        }
    }
}

#[test]
fn test_concatenation() {
    // the encoding of a pair is the two encodings, concatenated
    let mut pair = Serializer::new(vec![]);
    pair.serialize_u16(0x1234).unwrap();
    pair.serialize_str("ab").unwrap();
    let mut first = Serializer::new(vec![]);
    first.serialize_u16(0x1234).unwrap();
    let mut second = Serializer::new(vec![]);
    second.serialize_str("ab").unwrap();
    let mut concat = first.into_inner();
    concat.extend(second.into_inner());
    assert_eq!(pair.into_inner(), concat);
}

#[test]
fn test_not_supported() {
    let mut ser = Serializer::new(vec![]);
    assert_eq!(ser.serialize_map(), Err(Error::NotSupported("map")));

    let mut de = Deserializer::new(&[][..]);
    assert_eq!(de.deserialize_map(), Err(Error::NotSupported("map")));
    assert_eq!(
        de.deserialize_any(),
        Err(Error::NotSupported("deserialize_any"))
    );
    assert_eq!(de.deserialize_str(), Err(Error::NotSupported("borrowed str")));
    assert_eq!(
        de.deserialize_identifier(),
        Err(Error::NotSupported("deserialize_identifier"))
    );
    assert_eq!(
        de.deserialize_ignored_any(),
        Err(Error::NotSupported("deserialize_ignored_any"))
    );
}

#[test]
fn test_error_variants() {
    // invalid option tag
    let mut de = Deserializer::new(&[7][..]);
    assert_eq!(de.deserialize_option_tag(), Err(Error::InvalidTagEncoding(7)));

    // invalid char scalar value (a surrogate)
    let mut ser = Serializer::new(vec![]);
    ser.serialize_u32(0xd800).unwrap();
    let bytes = ser.into_inner();
    let mut de = Deserializer::new(&bytes[..]);
    assert_eq!(
        de.deserialize_char(),
        Err(Error::InvalidCharEncoding(0xd800))
    );

    // invalid UTF-8 in a text string
    let mut ser = Serializer::new(vec![]);
    ser.serialize_bytes(&[0xff, 0xfe]).unwrap();
    let bytes = ser.into_inner();
    let mut de = Deserializer::new(&bytes[..]);
    assert_eq!(de.deserialize_string(), Err(Error::Utf8));

    // too many variants
    let mut ser = Serializer::new(vec![]);
    match ser.serialize_variant(256) {
        Err(Error::Message(m)) => assert_eq!(m, "too many variants"),
        other => panic!("expected a message error, got {:?}", other),
    }
}

#[test]
fn test_skip_bytes() {
    let mut ser = Serializer::new(vec![]);
    ser.serialize_bytes(&[9, 8, 7, 6, 5, 4, 3, 2, 1, 0]).unwrap();
    ser.serialize_u8(0x42).unwrap();
    let bytes = ser.into_inner();
    let mut de = Deserializer::new(&bytes[..]);
    assert_eq!(de.skip_bytes().unwrap(), 10);
    assert_eq!(de.position(), bytes.len() - 1);
    assert_eq!(de.deserialize_u8().unwrap(), 0x42);
    assert!(!de.has_remaining());

    let mut de = Deserializer::new(&[0][..]);
    assert_eq!(de.skip_bytes().unwrap(), 0);

    let mut de = Deserializer::new(&[2][..]);
    assert_eq!(de.skip_bytes(), Err(Error::InvalidBytesEncoding(2)));
}

#[test]
fn test_cursor_operations() {
    let data = [5u8, 6, 7, 8];
    let mut de = Deserializer::new(&data[..]);
    assert_eq!(de.position(), 0);
    assert!(de.has_remaining());
    de.advance(1);
    assert_eq!(de.position(), 1);
    assert_eq!(de.deserialize_u8().unwrap(), 6);
    assert_eq!(de.into_inner(), &[7, 8]);
}

#[test]
fn test_reverse_roundtrip() {
    let mut ser = Serializer::new(vec![]);
    ser.set_reverse(true);
    ser.serialize_str("backwards").unwrap();
    ser.serialize_u32(0x01020304).unwrap();
    let bytes = ser.into_inner();

    let mut de = Deserializer::new(&bytes[..]);
    de.set_reverse(true);
    assert_eq!(de.deserialize_string().unwrap(), "backwards");
    assert_eq!(de.deserialize_u32().unwrap(), 0x01020304);
    assert!(!de.has_remaining());
}
