use memcomparable::{decimal_e_m, Decimal, Deserializer, Error, Serializer};

fn parse_decimal(s: &str) -> Decimal {
    match s {
        "nan" | "NaN" => Decimal::NaN,
        "-inf" | "-Inf" => Decimal::NegInf,
        "inf" | "Inf" => Decimal::Inf,
        _ => {
            let d: rust_decimal::Decimal = s.parse().unwrap();
            Decimal::Normalized {
                mantissa: d.mantissa(),
                scale: d.scale(),
            }
        }
    }
}

fn serialize_decimal(decimal: Decimal) -> Vec<u8> {
    let mut serializer = Serializer::new(vec![]);
    serializer.serialize_decimal(decimal).unwrap();
    serializer.into_inner()
}

fn deserialize_decimal(bytes: &[u8]) -> Decimal {
    let mut deserializer = Deserializer::new(bytes);
    deserializer.deserialize_decimal().unwrap()
}

#[test]
fn test_decimal() {
    // Notice: decimals like 100.00 will be decoding as 100.
    let decimals = [
        "nan",
        "-inf",
        "-123456789012345678901234",
        "-1234567890.1234",
        "-233.3",
        "-0.001",
        "0",
        "0.001",
        "0.01111",
        "50",
        "100",
        "12345",
        "41721.900909090909090909090909",
        "123456789012345678901234",
        "inf",
    ];
    let mut last_encoding = vec![];
    for s in decimals {
        let decimal = parse_decimal(s);
        let encoding = serialize_decimal(decimal);
        assert_eq!(deserialize_decimal(&encoding), decimal);
        assert!(encoding > last_encoding);
        last_encoding = encoding;
    }
}

#[test]
fn test_decimal_e_m() {
    let cases = vec![
        // (decimal, exponents, significand)
        ("1.0", 1, "02"),
        ("10.0", 1, "14"),
        ("10", 1, "14"),
        ("99.0", 1, "c6"),
        ("99.01", 1, "c7 02"),
        ("99.0001", 1, "c7 01 02"),
        ("100.0", 2, "02"),
        ("100.01", 2, "03 01 02"),
        ("100.1", 2, "03 01 14"),
        ("111.11", 2, "03 17 16"),
        ("1234", 2, "19 44"),
        ("9999", 2, "c7 c6"),
        ("9999.000001", 2, "c7 c7 01 01 02"),
        ("9999.000009", 2, "c7 c7 01 01 12"),
        ("9999.00001", 2, "c7 c7 01 01 14"),
        ("9999.00009", 2, "c7 c7 01 01 b4"),
        ("9999.000099", 2, "c7 c7 01 01 c6"),
        ("9999.0001", 2, "c7 c7 01 02"),
        ("9999.001", 2, "c7 c7 01 14"),
        ("9999.01", 2, "c7 c7 02"),
        ("9999.1", 2, "c7 c7 14"),
        ("10000", 3, "02"),
        ("10001", 3, "03 01 02"),
        ("12345", 3, "03 2f 5a"),
        ("123450", 3, "19 45 64"),
        ("1234.5", 2, "19 45 64"),
        ("12.345", 1, "19 45 64"),
        ("0.123", 0, "19 3c"),
        ("0.0123", 0, "03 2e"),
        ("0.00123", -1, "19 3c"),
        ("9223372036854775807", 10, "13 2d 43 91 07 89 6d 9b 75 0e"),
    ];

    for (decimal, exponents, significand) in cases {
        let d = decimal.parse::<rust_decimal::Decimal>().unwrap();
        let (exp, sig) = decimal_e_m(d.mantissa(), d.scale());
        assert_eq!(exp, exponents, "wrong exponents for decimal: {decimal}");
        assert_eq!(
            sig.iter()
                .map(|b| format!("{b:02x}"))
                .collect::<Vec<_>>()
                .join(" "),
            significand,
            "wrong significand for decimal: {decimal}"
        );
    }
}

#[test]
fn test_decimal_terminals() {
    assert_eq!(serialize_decimal(parse_decimal("0")), [0x15]);
    assert_eq!(serialize_decimal(parse_decimal("1.0")), [0x18, 0x02]);
    assert_eq!(serialize_decimal(parse_decimal("inf")), [0x23]);
    assert_eq!(serialize_decimal(parse_decimal("nan")), [0x06]);
    assert_eq!(serialize_decimal(parse_decimal("-inf")), [0x07]);
}

#[test]
fn test_decimal_to_vec_from_slice() {
    let d = parse_decimal("-1234567890.1234");
    let bytes = d.to_vec().unwrap();
    assert_eq!(Decimal::from_slice(&bytes), Ok(d));

    // trailing bytes after a complete value are rejected
    let mut extended = bytes.clone();
    extended.push(0);
    assert_eq!(
        Decimal::from_slice(&extended),
        Err(Error::TrailingCharacters)
    );

    // an invalid flag byte is rejected
    assert_eq!(
        Decimal::from_slice(&[0x42]),
        Err(Error::InvalidDecimalEncoding(0x42))
    );
}

#[test]
fn test_decimal_canonicalisation() {
    // trailing zeros beyond the base-100 boundary are not preserved
    let hundred_00 = parse_decimal("100.00");
    let encoding = serialize_decimal(hundred_00);
    assert_eq!(deserialize_decimal(&encoding), parse_decimal("100"));

    // tiny and huge exponents use the two-byte headers
    for s in ["0.00000000000000000000001", "-0.00000000000000000000001"] {
        let d = parse_decimal(s);
        let encoding = serialize_decimal(d);
        assert_eq!(deserialize_decimal(&encoding), d);
    }
    for s in [
        "79228162514264337593543950335",
        "-79228162514264337593543950335",
    ] {
        let d = parse_decimal(s);
        let encoding = serialize_decimal(d);
        assert_eq!(deserialize_decimal(&encoding), d);
    }
}
