use cbor2::cli::{
    from_base64, from_hex, hex, parse_args, write_hex, Command, DecodeOutput, EncodeInput, EncodeOutput,
    Parsed, UsageError,
};

fn parse(args: &[&str]) -> Parsed {
    parse_args(&args.iter().map(|a| a.to_string()).collect())
}

fn run(args: &[&str]) -> (Command, DecodeOutput, EncodeOutput, EncodeInput, Option<String>) {
    match parse(args) {
        Parsed::Run(a) => (a.command, a.decode_output, a.encode_output, a.encode_input, a.input),
        _ => panic!("not a run: {args:?}"),
    }
}

#[test]
fn no_arguments_show_stdin() {
    assert_eq!(
        run(&[]),
        (Command::Show, DecodeOutput::Diag, EncodeOutput::Raw, EncodeInput::Cdn, None)
    );
    assert_eq!(run(&["a201"]).4, Some("a201".to_string()));
}

#[test]
fn commands_and_options() {
    assert_eq!(
        run(&["decode", "--json", "x.cbor"]),
        (Command::Decode, DecodeOutput::Json, EncodeOutput::Raw, EncodeInput::Json, Some("x.cbor".to_string()))
    );
    assert_eq!(
        run(&["encode", "--hex"]),
        (Command::Encode, DecodeOutput::Diag, EncodeOutput::Hex, EncodeInput::Cdn, None)
    );
    assert_eq!(run(&["validate", "-"]).0, Command::Validate);
    assert_eq!(run(&["decode", "-d"]).0, Command::Decode);
}

#[test]
fn double_dash_ends_options() {
    // After `--`, a leading word is input, not a command.
    assert_eq!(run(&["--", "decode"]).0, Command::Show);
    assert_eq!(run(&["--", "decode"]).4, Some("decode".to_string()));
    assert_eq!(run(&["--", "-Ds="]).4, Some("-Ds=".to_string()));
    assert_eq!(run(&["decode", "--", "--json"]).4, Some("--json".to_string()));
}

#[test]
fn help_and_version_stop_at_once() {
    assert!(matches!(parse(&["-h"]), Parsed::Help));
    assert!(matches!(parse(&["decode", "--help", "--bogus"]), Parsed::Help));
    assert!(matches!(parse(&["-V"]), Parsed::Version));
    assert!(matches!(parse(&["--version"]), Parsed::Version));
}

#[test]
fn usage_errors() {
    match parse(&["--bogus"]) {
        Parsed::Usage(UsageError::Unrecognized(arg)) => assert_eq!(arg, "--bogus"),
        _ => panic!("expected an unrecognized option"),
    }
    assert!(matches!(parse(&["a", "b"]), Parsed::Usage(UsageError::TooManyInputs)));
    assert!(matches!(parse(&["--json"]), Parsed::Usage(UsageError::JsonNeedsCommand)));
    assert!(matches!(parse(&["validate", "--diag"]), Parsed::Usage(UsageError::DiagNeedsCommand)));
    assert!(matches!(parse(&["--cdn"]), Parsed::Usage(UsageError::CdnNeedsCommand)));
    assert!(matches!(parse(&["decode", "--json", "--cdn"]), Parsed::Usage(UsageError::JsonWithDiag)));
    assert!(matches!(parse(&["decode", "--hex"]), Parsed::Usage(UsageError::HexNeedsEncode)));
    // A lone `-` is stdin, not an option.
    assert_eq!(run(&["-"]).4, Some("-".to_string()));
}

#[test]
fn hex_text() {
    assert_eq!(hex(&[0x00, 0xab, 0x10]), "00ab10");
    let mut out = b"x".to_vec();
    write_hex(&mut out, &[0xde, 0xad]);
    assert_eq!(out, b"xdead".to_vec());
}

#[test]
fn hex_input() {
    assert_eq!(from_hex("a201"), Some(vec![0xa2, 0x01]));
    assert_eq!(from_hex("0xA2 01\n"), Some(vec![0xa2, 0x01]));
    assert_eq!(from_hex("0X00"), Some(vec![0x00]));
    assert_eq!(from_hex(""), None);
    assert_eq!(from_hex("0x"), None);
    assert_eq!(from_hex("abc"), None);
    assert_eq!(from_hex("zz"), None);
}

#[test]
fn hex_round_trips() {
    let bytes: Vec<u8> = (0..=255).collect();
    assert_eq!(from_hex(&hex(&bytes)), Some(bytes));
}

#[test]
fn base64_input() {
    assert_eq!(from_base64("oQEC"), Some(vec![0xa1, 0x01, 0x02]));
    assert_eq!(from_base64("oQE="), Some(vec![0xa1, 0x01]));
    assert_eq!(from_base64("oQE"), Some(vec![0xa1, 0x01]));
    assert_eq!(from_base64("oQ=="), Some(vec![0xa1]));
    assert_eq!(from_base64("-_8"), Some(vec![0xfb, 0xff]));
    assert_eq!(from_base64("+/8="), Some(vec![0xfb, 0xff]));
    assert_eq!(from_base64(" oQ\nEC "), Some(vec![0xa1, 0x01, 0x02]));
    assert_eq!(from_base64(""), None);
    assert_eq!(from_base64("o"), None);
    assert_eq!(from_base64("oQE=="), None);
    assert_eq!(from_base64("oR=="), None);
    assert_eq!(from_base64("oQ=a"), None);
    assert_eq!(from_base64("o!EC"), None);
}
