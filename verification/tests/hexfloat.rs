use cbor2::cdn::{CdnError, Problem};
use cbor2::hexfloat::parse_hex_float;

fn bits(literal: &str) -> u64 {
    parse_hex_float(literal, 0).unwrap()
}

#[test]
fn hex_float_scaling_does_not_underflow_early() {
    assert_eq!(bits("0x10p-1075"), 8, "exact value is 2^-1071");
}

#[test]
fn hex_float_scaling_does_not_overflow_early() {
    let literal = format!("0x1{}p-1080", "0".repeat(270));
    let result = parse_hex_float(&literal, 0);
    assert!(result.is_ok(), "exact value is 1: {result:?}");
    assert_eq!(f64::from_bits(result.unwrap()), 1.0);
}

#[test]
fn hex_float_exponent_arithmetic_never_panics() {
    assert_eq!(bits("0x1.0p-2147483648"), 0.0f64.to_bits());
}

#[test]
fn hex_float_rounds_once_with_sticky_bits() {
    assert_eq!(bits("0x1.000000000000080001p0"), 0x3ff0_0000_0000_0001);
}

#[test]
fn hex_float_rounding_boundaries_and_random_exact_values() {
    for (input, expected) in [
        ("0x1p-1075", 0),
        ("-0x1p-1075", 1 << 63),
        ("0x1.0001p-1075", 1),
        ("0x0.fffffffffffff8p-1022", 1 << 52),
        ("0x1.00000000000007p0", 0x3ff0000000000000),
        ("0x1.00000000000008p0", 0x3ff0000000000000),
        ("0x1.00000000000018p0", 0x3ff0000000000002),
        ("0x1.fffffffffffff7p1023", 0x7fefffffffffffff),
        ("0x0p999999999999999999999", 0),
    ] {
        assert_eq!(bits(input), expected, "{input}");
    }
    assert!(parse_hex_float("0x1.fffffffffffff8p1023", 0).is_err());
    let mut state = 0x47110815deadbeefu64;
    for _ in 0..10_000 {
        state ^= state << 13;
        state ^= state >> 7;
        state ^= state << 17;
        let value = f64::from_bits(state);
        if !value.is_finite() {
            continue;
        }
        let exponent = (state >> 52) & 0x7ff;
        let mantissa = (state & ((1 << 52) - 1)) | if exponent == 0 { 0 } else { 1 << 52 };
        let power = if exponent == 0 {
            -1074
        } else {
            exponent as i32 - 1075
        };
        let input = format!(
            "{}0x{mantissa:x}p{power}",
            if state >> 63 == 0 { "" } else { "-" }
        );
        assert_eq!(bits(&input), state, "{input}");
    }
}

#[test]
fn hex_float_simple_values() {
    assert_eq!(f64::from_bits(bits("0x1.8p1")), 3.0);
    assert_eq!(f64::from_bits(bits("0X1P+0")), 1.0);
    assert_eq!(f64::from_bits(bits("-0x.8p0")), -0.5);
    assert_eq!(f64::from_bits(bits("+0xA.p-1")), 5.0);
    assert_eq!(bits("-0x1p-1074"), 0x8000_0000_0000_0001);
    assert_eq!(bits("-0x0p0"), 1 << 63);
    assert_eq!(bits("0x1p1023"), 0x7fe0_0000_0000_0000);
}

#[test]
fn hex_float_ties_round_to_even() {
    // 1 + 2^-53 is halfway between 1 and the next value: round down to even.
    assert_eq!(bits("0x1.00000000000008p0"), 0x3ff0_0000_0000_0000);
    // 1 + 3 * 2^-53 is halfway between two values: round up to even.
    assert_eq!(bits("0x1.00000000000018p0"), 0x3ff0_0000_0000_0002);
    // Rounding up carries into the exponent.
    assert_eq!(bits("0x1.fffffffffffff8p0"), 0x4000_0000_0000_0000);
}

#[test]
fn hex_float_errors() {
    assert_eq!(parse_hex_float("0x1p1024", 7), Err(CdnError::Semantic(7, Problem::HexFloatOverflow)));
    assert_eq!(parse_hex_float("1p0", 3), Err(CdnError::Syntax(3)));
    assert_eq!(parse_hex_float("0x1", 3), Err(CdnError::Syntax(3)));
    assert_eq!(parse_hex_float("0x1g.0p0", 3), Err(CdnError::Syntax(3)));
    assert_eq!(parse_hex_float("0x1p1x", 3), Err(CdnError::Syntax(3)));
    assert_eq!(parse_hex_float("0x1p--1", 3), Err(CdnError::Syntax(3)));
    // An empty exponent is zero, and an empty mantissa is zero.
    assert_eq!(bits("0x1p"), 1.0f64.to_bits());
    assert_eq!(bits("0xp5"), 0);
}

#[test]
fn exact_literals_read_back_exactly() {
    // The literal of a finite value: its significand in hex, its power of
    // two in decimal.
    fn literal(bits: u64) -> String {
        let exponent = (bits >> 52) & 0x7ff;
        let fraction = bits & ((1 << 52) - 1);
        let (significand, power) =
            if exponent == 0 { (fraction, -1074i64) } else { (fraction | 1 << 52, exponent as i64 - 1075) };
        format!("{}0x{significand:x}p{power}", if bits >> 63 == 1 { "-" } else { "" })
    }
    for value in [0.0f64, -0.0, 1.0, -2.5, f64::MAX, f64::MIN_POSITIVE, 5e-324, -1e300, 0.1] {
        let bits = value.to_bits();
        assert_eq!(parse_hex_float(&literal(bits), 0), Ok(bits), "{value}");
    }
}
