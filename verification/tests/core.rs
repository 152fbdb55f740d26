use cbor2::codec::{Decoder, Encoder, Error, Header, IoError, SIMPLE_FALSE, SIMPLE_UNDEFINED};
use cbor2::float::{f16_to_f64_bits, f32_to_f64_bits, f64_to_f16_bits, f64_to_f32_bits};
use cbor2::value::Integer;

fn hex_of(bytes: &[u8]) -> String {
    bytes.iter().map(|b| format!("{b:02x}")).collect()
}

// Every f16 bit pattern must survive decoding to f64 and re-encoding.
#[test]
fn f16_exhaustive_roundtrip() {
    for bits in 0..=u16::MAX {
        let wide = f16_to_f64_bits(bits);
        assert_eq!(f64_to_f16_bits(wide), Some(bits), "bits {bits:04x}");
    }
}

// Every f32 bit pattern must survive widening to f64 and re-narrowing,
// NaN payloads and signaling bits included.
#[test]
fn f32_narrowing_roundtrip() {
    for bits in [
        0x0000_0000u32,
        0x8000_0000,
        0x3fc0_0000,
        0x7f7f_ffff,
        0x0000_0001,
        0x7f80_0000,
        0xff80_0000,
        0x7fc0_0000,
        0xffc0_0000,
        0x7fc0_0100,
        0x7f80_0001,
    ] {
        let wide = f32_to_f64_bits(bits);
        assert_eq!(f64_to_f32_bits(wide), Some(bits), "bits {bits:08x}");
    }
}

// Values that are not representable as f32 must be rejected.
#[test]
fn f32_rejects_lossy() {
    for value in [
        0.1f64,
        f64::MAX,
        f64::MIN_POSITIVE,
        f64::from_bits(0x7ff8_0000_1000_0000),
        f64::from_bits(0x7ff0_0000_0000_0001),
    ] {
        assert_eq!(f64_to_f32_bits(value.to_bits()), None, "{:016x}", value.to_bits());
    }
}

// NaN payloads use the narrowest lossless width (RFC 8949 §4.1).
#[test]
fn nan_payloads_use_preferred_widths() {
    for (bits, expected) in [
        (0x7ff8_0000_0000_0000u64, "f97e00"),
        (0xfff8_0000_0000_0000, "f9fe00"),
        (0x7ff8_0000_2000_0000, "fa7fc00001"),
        (0x7ff8_0000_1000_0000, "fb7ff8000010000000"),
    ] {
        let mut encoder = Encoder::from(Vec::new());
        encoder.push(Header::Float(bits)).unwrap();
        assert_eq!(hex_of(&encoder.into_inner()), expected, "bits {bits:016x}");
    }
}

// Values that are not representable as f16 must be rejected.
#[test]
fn f16_rejects_lossy() {
    for value in [
        f64::MIN_POSITIVE,
        65504.0 + 32.0,
        65536.0,
        1.1,
        5.960464477539063e-8 / 2.0,
        1.5 * 5.960464477539063e-8,
    ] {
        assert_eq!(f64_to_f16_bits(f64::to_bits(value)), None, "{value}");
    }

    assert_eq!(f64_to_f16_bits((-f64::NAN).to_bits()), Some(0xfe00));
    assert_eq!(f64_to_f16_bits(0x7ff8_0000_0000_0001), None);
    assert_eq!(f64_to_f16_bits(0xfff8_0000_0000_0001), None);
}

// Headers round-trip through encode and decode.
#[test]
fn header_roundtrip() {
    let headers = [
        Header::Positive(0),
        Header::Positive(23),
        Header::Positive(24),
        Header::Positive(u64::MAX),
        Header::Negative(0),
        Header::Negative(u64::MAX),
        Header::Float(1.5f64.to_bits()),
        Header::Float(f64::MAX.to_bits()),
        Header::Simple(SIMPLE_FALSE),
        Header::Simple(SIMPLE_UNDEFINED),
        Header::Simple(255),
        Header::Tag(0),
        Header::Tag(u64::MAX),
        Header::Break,
        Header::Bytes(Some(0)),
        Header::Bytes(Some(usize::MAX)),
        Header::Bytes(None),
        Header::Text(Some(64)),
        Header::Text(None),
        Header::Array(Some(1)),
        Header::Array(None),
        Header::Mapping(Some(1)),
        Header::Mapping(None),
    ];

    for header in headers {
        let mut encoder = Encoder::from(Vec::new());
        encoder.push(header).unwrap();
        let buffer = encoder.into_inner();

        let mut decoder = Decoder::from(&buffer[..]);
        assert_eq!(decoder.pull().unwrap(), header, "{header:?}");
        assert_eq!(decoder.offset(), buffer.len());
    }
}

// Pushback rewinds the offset and replays the header.
#[test]
fn pushback() {
    let bytes = [0x19, 0x01, 0x00, 0x01];
    let mut decoder = Decoder::from(&bytes[..]);

    let first = decoder.pull().unwrap();
    assert_eq!(first, Header::Positive(256));
    assert_eq!(decoder.offset(), 3);

    decoder.push(first);
    assert_eq!(decoder.offset(), 0);

    assert_eq!(decoder.pull().unwrap(), Header::Positive(256));
    assert_eq!(decoder.offset(), 3);
    assert_eq!(decoder.pull().unwrap(), Header::Positive(1));
    assert_eq!(decoder.offset(), 4);
}

#[test]
fn encoder_writes_preferred_integer_widths() {
    let cases: [(u64, &str); 6] = [
        (0, "00"),
        (23, "17"),
        (24, "1818"),
        (256, "190100"),
        (65536, "1a00010000"),
        (u64::MAX, "1bffffffffffffffff"),
    ];
    for (value, expected) in cases {
        let mut encoder = Encoder::from(Vec::new());
        encoder.push(Header::Positive(value)).unwrap();
        assert_eq!(hex_of(encoder.as_slice()), expected);
    }
    let mut encoder = Encoder::from(Vec::new());
    encoder.push(Header::Negative(0)).unwrap();
    assert_eq!(encoder.into_inner(), vec![0x20]);
}

#[test]
fn reserved_simple_values_are_not_written() {
    let mut encoder = Encoder::from(Vec::new());
    assert_eq!(encoder.push(Header::Simple(24)), Err(IoError::Other));
    assert_eq!(encoder.push(Header::Simple(31)), Err(IoError::Other));
    assert!(encoder.into_inner().is_empty());
}

#[test]
fn bytes_and_text_write_header_and_body() {
    let mut encoder = Encoder::from(Vec::new());
    encoder.bytes(&[1, 2, 3]).unwrap();
    encoder.text("ab").unwrap();
    assert_eq!(encoder.into_inner(), vec![0x43, 1, 2, 3, 0x62, b'a', b'b']);
}

#[test]
fn pull_reports_truncated_and_malformed_headers() {
    let mut decoder = Decoder::from(&[][..]);
    assert_eq!(decoder.pull(), Err(Error::Io(IoError::UnexpectedEof)));

    let mut decoder = Decoder::from(&[0x19, 0x01][..]);
    assert_eq!(decoder.pull(), Err(Error::Io(IoError::UnexpectedEof)));

    let mut decoder = Decoder::from(&[0x1c][..]);
    assert_eq!(decoder.pull(), Err(Error::Syntax(0)));

    // A one-byte simple value below 32 is not well-formed.
    let mut decoder = Decoder::from(&[0xf8, 0x10][..]);
    assert_eq!(decoder.pull(), Err(Error::Syntax(0)));
}

#[test]
fn definite_bodies_are_read_exactly() {
    let input = [0x43, 1, 2, 3, 0x01];
    let mut decoder = Decoder::from(&input[..]);
    assert_eq!(decoder.pull().unwrap(), Header::Bytes(Some(3)));
    let mut out = vec![9];
    decoder.bytes_body(Some(3), &mut out).unwrap();
    assert_eq!(out, vec![9, 1, 2, 3]);
    assert_eq!(decoder.offset(), 4);
    assert_eq!(decoder.pull().unwrap(), Header::Positive(1));

    let mut decoder = Decoder::from(&[0x43, 1][..]);
    decoder.pull().unwrap();
    let mut out = Vec::new();
    assert_eq!(decoder.bytes_body(Some(3), &mut out), Err(Error::Io(IoError::UnexpectedEof)));
    assert!(out.is_empty());
}

#[test]
fn segmented_bodies_are_joined() {
    let input = [0x5f, 0x42, 1, 2, 0x41, 3, 0xff];
    let mut decoder = Decoder::from(&input[..]);
    assert_eq!(decoder.pull().unwrap(), Header::Bytes(None));
    let mut out = Vec::new();
    decoder.bytes_body(None, &mut out).unwrap();
    assert_eq!(out, vec![1, 2, 3]);
    assert!(decoder.is_exhausted());

    let input = [0x7f, 0x62, b'h', b'i', 0x61, b'!', 0xff];
    let mut decoder = Decoder::from(&input[..]);
    assert_eq!(decoder.pull().unwrap(), Header::Text(None));
    let mut text = String::from(">");
    decoder.text_body(None, &mut text).unwrap();
    assert_eq!(text, ">hi!");
}

#[test]
fn segments_of_the_wrong_kind_are_refused() {
    // A text segment inside a byte string.
    let input = [0x5f, 0x61, b'a', 0xff];
    let mut decoder = Decoder::from(&input[..]);
    decoder.pull().unwrap();
    let mut out = Vec::new();
    assert_eq!(decoder.bytes_body(None, &mut out), Err(Error::Syntax(1)));

    // A text segment that is not UTF-8 on its own.
    let input = [0x7f, 0x61, 0xc3, 0x61, 0xa9, 0xff];
    let mut decoder = Decoder::from(&input[..]);
    decoder.pull().unwrap();
    let mut text = String::new();
    assert_eq!(decoder.text_body(None, &mut text), Err(Error::Syntax(2)));
}

#[test]
fn definite_text_must_be_utf8() {
    let input = [0x62, 0xc3, 0xa9];
    let mut decoder = Decoder::from(&input[..]);
    decoder.pull().unwrap();
    let mut text = String::new();
    decoder.text_body(Some(2), &mut text).unwrap();
    assert_eq!(text, "é");

    let input = [0x61, 0xff];
    let mut decoder = Decoder::from(&input[..]);
    decoder.pull().unwrap();
    let mut text = String::new();
    assert_eq!(decoder.text_body(Some(1), &mut text), Err(Error::Syntax(1)));
}

#[test]
fn recording_captures_the_wire_bytes() {
    let input = [0x82, 0x01, 0x18, 0x20];
    let mut decoder = Decoder::from(&input[..]);
    let header = decoder.pull().unwrap();
    decoder.push(header);
    decoder.start_recording();
    decoder.pull().unwrap();
    decoder.pull().unwrap();
    decoder.pull().unwrap();
    assert_eq!(decoder.take_recording(), input.to_vec());
}

#[test]
fn slice_fast_paths() {
    let input = [0x18, 0x2a, 0x38, 0x63, 0xf5, 0xf9, 0x3c, 0x00, 0x60];
    let mut decoder = Decoder::from(&input[..]);
    assert_eq!(decoder.integer_slice(), Some(Ok((false, 42))));
    assert_eq!(decoder.integer_slice(), Some(Ok((true, 99))));
    assert_eq!(decoder.integer_slice(), None);
    assert_eq!(decoder.bool_slice(), Some(true));
    assert_eq!(decoder.float_slice(), Some(Ok(1.0f64.to_bits())));
    assert_eq!(decoder.float_slice(), None);
    assert_eq!(decoder.pull_slice(), Ok(Header::Text(Some(0))));
    assert_eq!(decoder.offset(), input.len());

    // A header cut short consumes just its first byte.
    let mut decoder = Decoder::from(&[0x19, 0x01][..]);
    assert_eq!(decoder.pull_slice(), Err(Error::Io(IoError::UnexpectedEof)));
    assert_eq!(decoder.offset(), 1);

    // Reserved additional information consumes nothing.
    let mut decoder = Decoder::from(&[0x1d][..]);
    assert_eq!(decoder.integer_slice(), Some(Err(Error::Syntax(0))));
    assert_eq!(decoder.offset(), 0);
    assert_eq!(decoder.pull_slice(), Err(Error::Syntax(0)));
    assert_eq!(decoder.offset(), 0);
}

#[test]
fn borrowed_bodies_leave_short_input_alone() {
    let input = [0x43, 1, 2, 3];
    let mut decoder = Decoder::from(&input[..]);
    decoder.pull_slice().unwrap();
    assert_eq!(decoder.borrow_body(4), Err(IoError::UnexpectedEof));
    assert_eq!(decoder.offset(), 1);
    assert_eq!(decoder.borrow_body(3), Ok(&[1u8, 2, 3][..]));
    assert!(decoder.is_exhausted());
}

#[test]
fn writes_and_flushes_into_the_buffer() {
    let mut enc = Encoder::from(vec![0xff]);
    enc.write_all(&[1, 2]).unwrap();
    enc.flush().unwrap();
    assert_eq!(enc.into_inner(), vec![0xff, 1, 2]);
}

#[test]
fn integers_stay_in_the_cbor_range() {
    assert!(Integer::try_from_i128(-(1i128 << 64)).is_some());
    assert!(Integer::try_from_i128(-(1i128 << 64) - 1).is_none());
    assert!(Integer::try_from_i128((1i128 << 64) - 1).is_some());
    assert!(Integer::try_from_i128(1i128 << 64).is_none());
}

#[test]
fn read_exact_fills_the_slice() {
    let input = [0x43, 1, 2, 3, 0x01];
    let mut decoder = Decoder::from(&input[..]);
    assert_eq!(decoder.pull().unwrap(), Header::Bytes(Some(3)));
    let mut data = [0u8; 3];
    decoder.read_exact(&mut data).unwrap();
    assert_eq!(data, [1, 2, 3]);
    assert_eq!(decoder.offset(), 4);
    assert_eq!(decoder.pull().unwrap(), Header::Positive(1));

    let mut decoder = Decoder::from(&[0x43, 1][..]);
    decoder.pull().unwrap();
    let mut data = [7u8; 3];
    assert_eq!(decoder.read_exact(&mut data), Err(IoError::UnexpectedEof));
    assert_eq!(data, [7, 7, 7]);
    assert!(decoder.is_exhausted());
}
