use cbor2::cdn::{
    bytes_to_u64, float_atom, ip_atom, ip_atom_from, ip_literal_parts, is_app_char_any, is_tag_uint, mask_prefix,
    parse_bigint_digits, strip_leading_zeroes, strip_sign, subtract_one, Arg, Atom, BigInt, CdnError,
    IpAddress, Problem,
};

fn big(negative: bool, digits: &str, base: u32) -> (bool, Vec<u8>) {
    let b = parse_bigint_digits(negative, digits, base, 0).unwrap();
    (b.negative, b.magnitude)
}

#[test]
fn bigint_digits_in_every_base() {
    assert_eq!(big(false, "255", 10), (false, vec![0xff]));
    assert_eq!(big(true, "0100", 16), (true, vec![0x01, 0x00]));
    assert_eq!(big(false, "777", 8), (false, vec![0x01, 0xff]));
    assert_eq!(big(false, "1010", 2), (false, vec![0x0a]));
    // 2^64 needs nine bytes.
    assert_eq!(
        big(false, "18446744073709551616", 10),
        (false, vec![1, 0, 0, 0, 0, 0, 0, 0, 0])
    );
    // 2^128.
    let mut expected = vec![1u8];
    expected.extend_from_slice(&[0u8; 16]);
    assert_eq!(big(false, "340282366920938463463374607431768211456", 10), (false, expected));
}

#[test]
fn bigint_zero_is_never_negative() {
    assert_eq!(big(true, "000", 10), (false, vec![]));
    assert_eq!(big(true, "", 16), (false, vec![]));
}

#[test]
fn bigint_rejects_foreign_digits() {
    assert_eq!(parse_bigint_digits(false, "12a", 10, 7).unwrap_err(), CdnError::Syntax(7));
    assert_eq!(parse_bigint_digits(false, "102", 2, 3).unwrap_err(), CdnError::Syntax(3));
    assert_eq!(parse_bigint_digits(false, "ffg", 16, 0).unwrap_err(), CdnError::Syntax(0));
}

#[test]
fn bigint_of_i128() {
    let b = BigInt::from_i128(-256);
    assert!(b.negative);
    assert_eq!(b.magnitude, vec![1, 0]);
    let b = BigInt::from_i128(0);
    assert!(!b.negative);
    assert!(b.magnitude.is_empty());
    let b = BigInt::from_i128(i128::MIN);
    assert!(b.negative);
    let mut expected = vec![0x80u8];
    expected.extend_from_slice(&[0u8; 15]);
    assert_eq!(b.magnitude, expected);
}

#[test]
fn leading_zeroes_are_stripped() {
    let mut bytes = vec![0, 0, 5, 0];
    strip_leading_zeroes(&mut bytes);
    assert_eq!(bytes, vec![5, 0]);
    let mut bytes = vec![0, 0];
    strip_leading_zeroes(&mut bytes);
    assert!(bytes.is_empty());
}

#[test]
fn bytes_to_u64_takes_at_most_eight_bytes() {
    assert_eq!(bytes_to_u64(&[]), Some(0));
    assert_eq!(bytes_to_u64(&[1, 2]), Some(0x0102));
    assert_eq!(bytes_to_u64(&[0xff; 8]), Some(u64::MAX));
    assert_eq!(bytes_to_u64(&[0; 9]), None);
}

#[test]
fn subtract_one_borrows() {
    assert_eq!(subtract_one(&[1, 0]), vec![0xff]);
    assert_eq!(subtract_one(&[2]), vec![1]);
    assert_eq!(subtract_one(&[1]), Vec::<u8>::new());
    assert_eq!(subtract_one(&[1, 0, 0]), vec![0xff, 0xff]);
    // Zero wraps around.
    assert_eq!(subtract_one(&[0, 0]), vec![0xff, 0xff]);
}

#[test]
fn signs_and_tag_numbers() {
    assert_eq!(strip_sign("-12"), (true, "12"));
    assert_eq!(strip_sign("+12"), (false, "12"));
    assert_eq!(strip_sign("12"), (false, "12"));
    assert_eq!(strip_sign(""), (false, ""));
    assert!(is_tag_uint("0"));
    assert!(is_tag_uint("1234"));
    assert!(!is_tag_uint("01"));
    assert!(!is_tag_uint(""));
    assert!(!is_tag_uint("12a"));
    assert!(!is_tag_uint("+1"));
    assert!(is_app_char_any('a') && is_app_char_any('Z') && is_app_char_any('7') && is_app_char_any('-'));
    assert!(!is_app_char_any('_') && !is_app_char_any('é'));
}

#[test]
fn float_extension_widths() {
    match float_atom(vec![0x3c, 0x00], 0).unwrap() {
        Atom::FloatRaw { bytes, value } => {
            assert_eq!(bytes, vec![0xf9, 0x3c, 0x00]);
            assert_eq!(value, 1.0f64.to_bits());
        }
        _ => panic!("not a float"),
    }
    match float_atom(vec![0x3f, 0xc0, 0x00, 0x00], 0).unwrap() {
        Atom::FloatRaw { bytes, value } => {
            assert_eq!(bytes, vec![0xfa, 0x3f, 0xc0, 0x00, 0x00]);
            assert_eq!(value, 1.5f64.to_bits());
        }
        _ => panic!("not a float"),
    }
    match float_atom(2.5f64.to_bits().to_be_bytes().to_vec(), 0).unwrap() {
        Atom::FloatRaw { value, .. } => assert_eq!(value, 2.5f64.to_bits()),
        _ => panic!("not a float"),
    }
    assert_eq!(
        float_atom(vec![1, 2, 3], 5).unwrap_err(),
        CdnError::Semantic(5, Problem::FloatWidth)
    );
}

#[test]
fn text_arguments_encode_as_text_items() {
    assert_eq!(Arg::Text("ab".to_string()).into_encoded().unwrap(), vec![0x62, b'a', b'b']);
    assert_eq!(Arg::Encoded(vec![0xf6]).into_encoded().unwrap(), vec![0xf6]);
}

#[test]
fn ip_literal_parts_split_at_the_slash() {
    assert_eq!(ip_literal_parts("192.0.2.1", 0).unwrap(), (9, false, None));
    assert_eq!(ip_literal_parts("2001:db8::/32", 0).unwrap(), (10, true, Some(32)));
    assert_eq!(ip_literal_parts("10.0.0.0/", 4).unwrap_err(), CdnError::Syntax(4));
    assert_eq!(ip_literal_parts("10.0.0.0/08", 4).unwrap_err(), CdnError::Syntax(4));
    assert_eq!(ip_literal_parts("10.0.0.0/x", 4).unwrap_err(), CdnError::Syntax(4));
    assert_eq!(ip_literal_parts("10.0.0.0/300", 4).unwrap_err(), CdnError::Syntax(4 + 8 + 1));
    assert_eq!(ip_literal_parts("10.0.0.0/0", 0).unwrap(), (8, false, Some(0)));
}

#[test]
fn ip_atoms_follow_rfc_9164() {
    let v4 = IpAddress::V4([192, 0, 2, 1]);
    match ip_atom_from(v4, None, false, 0).unwrap() {
        Atom::Bytes(b) => assert_eq!(b, vec![192, 0, 2, 1]),
        _ => panic!("not bytes"),
    }
    match ip_atom_from(v4, None, true, 0).unwrap() {
        Atom::Raw(b) => assert_eq!(b, vec![0xd8, 52, 0x44, 192, 0, 2, 1]),
        _ => panic!("not raw"),
    }
    let net = IpAddress::V4([192, 0, 2, 0]);
    match ip_atom_from(net, Some(24), true, 0).unwrap() {
        Atom::Raw(b) => assert_eq!(b, vec![0xd8, 52, 0x82, 0x18, 24, 0x43, 192, 0, 2]),
        _ => panic!("not raw"),
    }
    assert_eq!(
        ip_atom_from(v4, Some(24), true, 3).unwrap_err(),
        CdnError::Semantic(3, Problem::HostBits)
    );
    assert_eq!(
        ip_atom_from(v4, Some(33), true, 3).unwrap_err(),
        CdnError::Semantic(3, Problem::PrefixRange)
    );
    let mut v6 = [0u8; 16];
    v6[0] = 0x20;
    v6[1] = 0x01;
    v6[2] = 0x0d;
    v6[3] = 0xb8;
    match ip_atom_from(IpAddress::V6(v6), Some(32), false, 0).unwrap() {
        Atom::Raw(b) => assert_eq!(b, vec![0x82, 0x18, 32, 0x44, 0x20, 0x01, 0x0d, 0xb8]),
        _ => panic!("not raw"),
    }
}

#[test]
fn prefixes_mask_partial_bytes() {
    assert_eq!(mask_prefix(vec![0xff, 0xff, 0xff, 0xff], 12), vec![0xff, 0xf0]);
    assert_eq!(mask_prefix(vec![0xff, 0xff, 0xff, 0xff], 16), vec![0xff, 0xff]);
    assert_eq!(mask_prefix(vec![0xff, 0xff, 0xff, 0xff], 0), Vec::<u8>::new());
}

#[test]
fn large_integer_radices_agree() {
    for n in [129usize, 257, 1025, 4097] {
        // 2^n - 1 in two radices, straddling byte boundaries.
        let binary = "1".repeat(n);
        let hex = format!("{:x}{}", (1u8 << (n % 4)) - 1, "f".repeat(n / 4));
        assert_eq!(big(false, &binary, 2), big(false, &hex, 16), "{n}");
        assert_eq!(big(true, &binary, 2), big(true, &hex, 16), "{n}");
        let (_, magnitude) = big(false, &binary, 2);
        assert_eq!(magnitude.len(), (n + 7) / 8);
        assert!(magnitude[1..].iter().all(|&b| b == 0xff));
    }
}

#[test]
fn a_plus_after_the_zeros_reads_as_the_native_parsers_read_it() {
    let b = parse_bigint_digits(true, "00+17", 10, 0).unwrap();
    assert!(b.negative);
    assert_eq!(b.magnitude, vec![17]);
    assert_eq!(parse_bigint_digits(false, "+ff", 16, 0).unwrap().magnitude, vec![0xff]);
    assert_eq!(parse_bigint_digits(false, "+", 10, 4).unwrap_err(), CdnError::Syntax(4));
    assert_eq!(parse_bigint_digits(false, "++1", 10, 4).unwrap_err(), CdnError::Syntax(4));
    // Beyond 128 bits only base ten keeps the `+`, unless it is a chunk of its own.
    let wide = format!("+1{}", "0".repeat(40));
    assert_eq!(parse_bigint_digits(false, &wide, 16, 2).unwrap_err(), CdnError::Syntax(2));
    let b = parse_bigint_digits(false, &wide, 10, 2).unwrap();
    assert_eq!(b.magnitude.len(), 17);
    let alone = format!("+1{}", "0".repeat(44));
    assert_eq!(alone.len() % 9, 1);
    assert_eq!(parse_bigint_digits(false, &alone, 10, 2).unwrap_err(), CdnError::Syntax(2));
}

#[test]
fn ip_literals_parse_their_address() {
    match ip_atom("192.0.2.1", false, 0).unwrap() {
        Atom::Bytes(b) => assert_eq!(b, vec![192, 0, 2, 1]),
        _ => panic!("not bytes"),
    }
    match ip_atom("192.0.2.0/24", true, 0).unwrap() {
        Atom::Raw(b) => assert_eq!(b, vec![0xd8, 52, 0x82, 0x18, 24, 0x43, 192, 0, 2]),
        _ => panic!("not raw"),
    }
    match ip_atom("2001:db8::1", false, 0).unwrap() {
        Atom::Bytes(b) => assert_eq!(b, vec![0x20, 0x01, 0x0d, 0xb8, 0, 0, 0, 0, 0, 0, 0, 0, 0, 0, 0, 1]),
        _ => panic!("not bytes"),
    }
    match ip_atom("2001:db8::/32", true, 0).unwrap() {
        Atom::Raw(b) => assert_eq!(b, vec![0xd8, 54, 0x82, 0x18, 32, 0x44, 0x20, 0x01, 0x0d, 0xb8]),
        _ => panic!("not raw"),
    }
    // Leading zeros would read as octal, so they are refused.
    assert_eq!(ip_atom("192.0.02.1", false, 7).unwrap_err(), CdnError::Syntax(7));
    assert_eq!(ip_atom("192.0.2", false, 7).unwrap_err(), CdnError::Syntax(7));
    assert_eq!(ip_atom("192.0.2.256", false, 7).unwrap_err(), CdnError::Syntax(7));
    assert_eq!(ip_atom("2001:db8:::1", false, 7).unwrap_err(), CdnError::Syntax(7));
    assert_eq!(ip_atom("192.0.2.1/24", true, 3).unwrap_err(), CdnError::Semantic(3, Problem::HostBits));
    assert_eq!(ip_atom("10.0.0.0/08", false, 4).unwrap_err(), CdnError::Syntax(4));
}
