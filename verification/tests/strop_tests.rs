use extutils::numparse::{parse_i64, parse_unsigned, IntErrorKind};
use extutils::strop::{
    decode_base64, encode_base64, parse_bigint_digits, parse_computer_size_i64,
    parse_computer_size_u64, parse_to_bigint, parse_to_u8_array, parse_to_u8_array_str,
    parse_u64, quote_string, split_lines, StrOpError,
};

#[test]
fn parse_u64_decimal_and_hex() {
    assert_eq!(parse_u64("123"), Ok(123));
    assert_eq!(parse_u64("0x1f"), Ok(31));
    assert_eq!(parse_u64("0X1F"), Ok(31));
    assert_eq!(parse_u64("x10"), Ok(16));
    assert_eq!(parse_u64("X10"), Ok(16));
    assert_eq!(parse_u64("+5"), Ok(5));
    assert_eq!(parse_u64("18446744073709551615"), Ok(u64::MAX));
}

#[test]
fn parse_u64_errors() {
    assert_eq!(parse_u64(""), Err(StrOpError::ParseInt { kind: IntErrorKind::Empty }));
    assert_eq!(parse_u64("0x"), Err(StrOpError::ParseInt { kind: IntErrorKind::Empty }));
    assert_eq!(parse_u64("12a"), Err(StrOpError::ParseInt { kind: IntErrorKind::InvalidDigit }));
    assert_eq!(parse_u64("-1"), Err(StrOpError::ParseInt { kind: IntErrorKind::InvalidDigit }));
    assert_eq!(parse_u64("+"), Err(StrOpError::ParseInt { kind: IntErrorKind::InvalidDigit }));
    assert_eq!(
        parse_u64("18446744073709551616"),
        Err(StrOpError::ParseInt { kind: IntErrorKind::PosOverflow })
    );
}

#[test]
fn parse_u64_matches_std() {
    for s in ["0", "42", "007", "+9", "99999999999999999999", "1_0", " 1", "ab", "0x", "x"] {
        let b = s.as_bytes();
        let (digits, radix) = if b.len() >= 2 && b[0] == b'0' && (b[1] == b'x' || b[1] == b'X') {
            (&s[2..], 16)
        } else if !b.is_empty() && (b[0] == b'x' || b[0] == b'X') {
            (&s[1..], 16)
        } else {
            (s, 10)
        };
        assert_eq!(parse_u64(s).ok(), u64::from_str_radix(digits, radix).ok(), "{}", s);
    }
}

#[test]
fn numparse_radix_and_signed() {
    assert_eq!(parse_unsigned(b"ff", 16, u64::MAX), Ok(255));
    assert_eq!(parse_unsigned(b"256", 10, 255), Err(IntErrorKind::PosOverflow));
    assert_eq!(parse_i64(b"-9223372036854775808", 10), Ok(i64::MIN));
    assert_eq!(parse_i64(b"-9223372036854775809", 10), Err(IntErrorKind::NegOverflow));
    assert_eq!(parse_i64(b"9223372036854775808", 10), Err(IntErrorKind::PosOverflow));
    assert_eq!(parse_i64(b"-", 10), Err(IntErrorKind::InvalidDigit));
    assert_eq!(parse_i64(b"-z", 36), Ok(-35));
}

#[test]
fn u8_arrays_keep_low_byte() {
    let v = vec!["1".to_string(), "0x1ff".to_string(), "x7f".to_string()];
    assert_eq!(parse_to_u8_array(&v), Ok(vec![1, 255, 127]));
    assert_eq!(parse_to_u8_array_str(&["256", "10"]), Ok(vec![0, 10]));
    assert_eq!(
        parse_to_u8_array_str(&["1", "zz", ""]),
        Err(StrOpError::ParseInt { kind: IntErrorKind::InvalidDigit })
    );
    assert_eq!(parse_to_u8_array(&[]), Ok(vec![]));
}

#[test]
fn bigint_digits_and_values() {
    let p = parse_bigint_digits("0x-1F").unwrap();
    assert!(p.negative);
    assert_eq!(p.radix, 16);
    assert_eq!(p.digits, vec![1, 15]);
    let p = parse_bigint_digits("x7").unwrap();
    assert!(!p.negative);
    assert_eq!(p.radix, 16);
    assert_eq!(p.digits, vec![7]);
    assert_eq!(parse_bigint_digits("-").unwrap_err(), StrOpError::EmptyNumber);
    assert_eq!(parse_bigint_digits("0x").unwrap_err(), StrOpError::EmptyNumber);
    assert_eq!(
        parse_bigint_digits("-0x1F").unwrap_err(),
        StrOpError::InvalidDigitAt { index: 2, byte: b'x' }
    );
    assert_eq!(
        parse_bigint_digits("12g4").unwrap_err(),
        StrOpError::InvalidDigitAt { index: 2, byte: b'g' }
    );
}

#[test]
fn bigint_parses_big_numbers() {
    let v = parse_to_bigint("123456789012345678901234567890").unwrap();
    assert_eq!(v.to_string(), "123456789012345678901234567890");
    let v = parse_to_bigint("0x-ff").unwrap();
    assert_eq!(v, num_bigint::BigInt::from(-255));
    let v = parse_to_bigint("-0").unwrap();
    assert_eq!(v, num_bigint::BigInt::from(0));
    assert_eq!(parse_to_bigint("1.5").unwrap_err(), StrOpError::InvalidDigitAt { index: 1, byte: b'.' });
}

#[test]
fn computer_sizes_unsigned() {
    assert_eq!(parse_computer_size_u64("10"), Ok(10));
    assert_eq!(parse_computer_size_u64("4k"), Ok(4096));
    assert_eq!(parse_computer_size_u64("4K"), Ok(4096));
    assert_eq!(parse_computer_size_u64("1M"), Ok(1048576));
    assert_eq!(parse_computer_size_u64("2g"), Ok(2147483648));
    assert_eq!(parse_computer_size_u64("1t"), Ok(1099511627776));
    assert_eq!(parse_computer_size_u64("1P"), Ok(1125899906842624));
    assert_eq!(parse_computer_size_u64("3e"), Ok(3458764513820540928));
    assert_eq!(parse_computer_size_u64("5kb"), Err(StrOpError::TrailingText));
    assert_eq!(parse_computer_size_u64("5x"), Err(StrOpError::NotComputerSize));
    assert_eq!(parse_computer_size_u64(""), Err(StrOpError::NotComputerSize));
    assert_eq!(parse_computer_size_u64("k"), Err(StrOpError::NotComputerSize));
    assert_eq!(parse_computer_size_u64("12\n"), Err(StrOpError::NotComputerSize));
    assert_eq!(parse_computer_size_u64("-1"), Err(StrOpError::NotComputerSize));
    assert_eq!(
        parse_computer_size_u64("99999999999999999999"),
        Err(StrOpError::ParseInt { kind: IntErrorKind::PosOverflow })
    );
}

#[test]
fn computer_sizes_signed() {
    assert_eq!(parse_computer_size_i64("-2k"), Ok(-2048));
    assert_eq!(parse_computer_size_i64("7"), Ok(7));
    assert_eq!(parse_computer_size_i64("-8e"), Ok(i64::MIN));
    assert_eq!(parse_computer_size_i64("-"), Err(StrOpError::NotComputerSize));
    assert_eq!(parse_computer_size_i64("5-"), Err(StrOpError::NotComputerSize));
    assert_eq!(parse_computer_size_i64("1 k"), Err(StrOpError::TrailingText));
}

#[test]
fn lines_are_split_and_trimmed() {
    assert_eq!(split_lines("a\r\nb\n\nc\r\r"), vec!["a", "b", "", "c"]);
    assert_eq!(split_lines(""), vec![""]);
    assert_eq!(split_lines("x\n"), vec!["x", ""]);
    assert_eq!(split_lines("\r"), vec![""]);
    assert_eq!(split_lines("a\rb"), vec!["a\rb"]);
}

#[test]
fn lines_count_is_breaks_plus_one() {
    let s = "one\ntwo\r\nthree\n";
    assert_eq!(split_lines(s).len(), s.matches('\n').count() + 1);
}

#[test]
fn quoting_doubles_backslashes() {
    assert_eq!(quote_string("a\\b").unwrap(), "\"a\\\\b\"");
    assert_eq!(quote_string("").unwrap(), "\"\"");
    assert_eq!(quote_string("C:\\dir\\").unwrap(), "\"C:\\\\dir\\\\\"");
}

#[test]
fn base64_round_trip() {
    assert_eq!(encode_base64(b"hello"), "aGVsbG8=");
    assert_eq!(encode_base64(b""), "");
    assert_eq!(decode_base64("aGVsbG8=").unwrap(), b"hello".to_vec());
    assert_eq!(decode_base64("aGVsbG8"), Err(StrOpError::InvalidBase64));
    assert_eq!(decode_base64("a*=="), Err(StrOpError::InvalidBase64));
    let data: Vec<u8> = (0u8..=255).collect();
    assert_eq!(decode_base64(&encode_base64(&data)).unwrap(), data);
}

#[test]
fn lines_rejoin_to_text() {
    for s in ["", "a", "a\nb\n\nc", "\n\n", "x\n"] {
        assert_eq!(split_lines(s).join("\n"), s);
    }
}

#[test]
fn hex_and_decimal_texts_read_back() {
    for n in [0u64, 9, 10, 15, 16, 255, 4096, 0xdead_beef, u64::MAX] {
        assert_eq!(parse_u64(&format!("0x{:x}", n)), Ok(n));
        assert_eq!(parse_u64(&format!("x{:x}", n)), Ok(n));
        assert_eq!(parse_u64(&format!("{}", n)), Ok(n));
    }
}

#[test]
fn bigint_values_are_exact() {
    assert_eq!(parse_to_bigint("0x1a").unwrap(), num_bigint::BigInt::from(26));
    assert_eq!(parse_to_bigint("0x-ff").unwrap(), num_bigint::BigInt::from(-255));
    assert_eq!(
        parse_to_bigint("18446744073709551616").unwrap(),
        num_bigint::BigInt::from(u64::MAX) + 1
    );
    assert_eq!(parse_to_bigint("-42").unwrap(), -parse_to_bigint("42").unwrap());
    assert_eq!(parse_to_bigint("0x-aB").unwrap(), -parse_to_bigint("0xaB").unwrap());
}
