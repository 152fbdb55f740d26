//! The logic of the `cbor` command line tool: argument parsing and the
//! hex and base64 text forms of its input and output.

use vstd::prelude::*;
use vstd::string::{StringExecFns, StringSliceAdditionalSpecFns};
use vstd::utf8::{decode_utf8, encode_utf8, is_ascii_chars};

verus! {

/// The lowercase hex digit of a value below 16, as an ASCII byte.
pub open spec fn hex_digit(d: nat) -> u8 {
    if d < 10 {
        (0x30 + d) as u8
    } else {
        (0x61 + d - 10) as u8
    }
}

/// Lowercase hex text of a byte string, as ASCII bytes: two digits per
/// byte, high nibble first.
pub open spec fn hex_bytes(b: Seq<u8>) -> Seq<u8> {
    Seq::new(
        2 * b.len(),
        |k: int| if k % 2 == 0 { hex_digit((b[k / 2] / 16) as nat) } else { hex_digit((b[k / 2] % 16) as nat) },
    )
}

/// Lowercase hex text of a byte string.
pub open spec fn hex_text(b: Seq<u8>) -> Seq<char> {
    Seq::new(hex_bytes(b).len(), |k: int| hex_bytes(b)[k] as char)
}

/// The hex digit of a nibble.
fn nibble(d: u8) -> (c: u8)
    requires
        d < 16,
    ensures
        c == hex_digit(d as nat),
{
    if d < 10 {
        0x30 + d
    } else {
        0x61 + d - 10
    }
}

/// Appends the lowercase hex text of `bytes` to `output`.
pub fn write_hex(output: &mut Vec<u8>, bytes: &[u8])
    ensures
        final(output)@ == old(output)@ + hex_bytes(bytes@),
{
    let ghost start = output@;
    let mut i: usize = 0;
    while i < bytes.len()
        invariant
            i <= bytes@.len(),
            output@ == start + hex_bytes(bytes@.take(i as int)),
        decreases bytes@.len() - i,
    {
        let b = bytes[i];
        output.push(nibble(b / 16));
        output.push(nibble(b % 16));
        proof {
            let t = bytes@.take(i as int);
            let t1 = bytes@.take(i + 1);
            assert forall|k: int| 0 <= k < 2 * t.len() implies #[trigger] hex_bytes(t1)[k] == hex_bytes(t)[k] by {
                assert(t1[k / 2] == t[k / 2]);
            }
            assert(hex_bytes(t1) =~= hex_bytes(t).push(nibble_spec(b / 16)).push(nibble_spec(b % 16)));
        }
        i = i + 1;
    }
    assert(bytes@.take(bytes@.len() as int) =~= bytes@);
}

spec fn nibble_spec(d: u8) -> u8 {
    hex_digit(d as nat)
}

/// The lowercase hex text of `bytes`.
pub fn hex(bytes: &[u8]) -> (s: String)
    ensures
        s@ == hex_text(bytes@),
{
    let mut ascii: Vec<u8> = Vec::new();
    write_hex(&mut ascii, bytes);
    let ghost chars = hex_text(bytes@);
    proof {
        assert(ascii@ =~= hex_bytes(bytes@));
        assert(is_ascii_chars(chars)) by {
            assert forall|k: int| 0 <= k < chars.len() implies '\0' <= #[trigger] chars[k] <= '\u{7f}' by {
                let b = bytes@[k / 2];
                assert(b / 16 < 16 && b % 16 < 16);
            }
        }
        vstd::utf8::is_ascii_chars_encode_utf8(chars);
        assert(encode_utf8(chars) =~= ascii@);
        vstd::utf8::encode_utf8_valid_utf8(chars);
        vstd::utf8::encode_utf8_decode_utf8(chars);
    }
    match crate::codec::utf8_text(ascii.as_slice()) {
        Some(text) => String::from_str(text),
        None => String::new(),
    }
}

/// ASCII whitespace: space, tab, line feed, form feed, carriage return.
pub open spec fn is_ws(b: u8) -> bool {
    b == 0x20 || b == 0x09 || b == 0x0a || b == 0x0c || b == 0x0d
}

/// A byte string without its ASCII whitespace.
pub open spec fn without_ws(b: Seq<u8>) -> Seq<u8>
    decreases b.len(),
{
    if b.len() == 0 {
        b
    } else if is_ws(b.last()) {
        without_ws(b.drop_last())
    } else {
        without_ws(b.drop_last()).push(b.last())
    }
}

/// The bytes of `text` other than ASCII whitespace.
fn non_ws_bytes(text: &str) -> (v: Vec<u8>)
    ensures
        v@ == without_ws(text.spec_bytes()),
{
    let b = text.as_bytes();
    let mut v: Vec<u8> = Vec::new();
    let mut i: usize = 0;
    while i < b.len()
        invariant
            i <= b@.len(),
            v@ == without_ws(b@.take(i as int)),
        decreases b@.len() - i,
    {
        let x = b[i];
        assert(b@.take(i + 1).drop_last() =~= b@.take(i as int));
        if !(x == 0x20 || x == 0x09 || x == 0x0a || x == 0x0c || x == 0x0d) {
            v.push(x);
        }
        i = i + 1;
    }
    assert(b@.take(b@.len() as int) =~= b@);
    v
}

/// The value of a hex digit byte (either case), 16 or more otherwise.
pub open spec fn hex_value(b: u8) -> nat {
    if 0x30 <= b <= 0x39 {
        (b - 0x30) as nat
    } else if 0x61 <= b <= 0x66 {
        (b - 0x61 + 10) as nat
    } else if 0x41 <= b <= 0x46 {
        (b - 0x41 + 10) as nat
    } else {
        16
    }
}

/// Hex digits without an optional `0x` or `0X` prefix.
pub open spec fn hex_digits(d: Seq<u8>) -> Seq<u8> {
    if d.len() >= 2 && d[0] == 0x30 && (d[1] == 0x78 || d[1] == 0x58) {
        d.skip(2)
    } else {
        d
    }
}

/// The bytes that a hex string spells, when it is one: an optional `0x`
/// or `0X` prefix, then a nonzero even number of hex digits (either case);
/// ASCII whitespace is ignored.
pub open spec fn hex_decode(text: Seq<u8>) -> Option<Seq<u8>> {
    let d = hex_digits(without_ws(text));
    if d.len() == 0 || d.len() % 2 != 0 || exists|i: int| 0 <= i < d.len() && hex_value(#[trigger] d[i]) >= 16 {
        None
    } else {
        Some(Seq::new(d.len() / 2, |k: int| (hex_value(d[2 * k]) * 16 + hex_value(d[2 * k + 1])) as u8))
    }
}

fn hex_val(b: u8) -> (v: u8)
    ensures
        v == hex_value(b),
{
    if 0x30 <= b && b <= 0x39 {
        b - 0x30
    } else if 0x61 <= b && b <= 0x66 {
        b - 0x61 + 10
    } else if 0x41 <= b && b <= 0x46 {
        b - 0x41 + 10
    } else {
        16
    }
}

/// Decodes a hex string (optionally `0x`-prefixed, ASCII whitespace
/// ignored), or returns `None` if the text is not hex.
pub fn from_hex(text: &str) -> (r: Option<Vec<u8>>)
    ensures
        match hex_decode(text.spec_bytes()) {
            Some(b) => r matches Some(v) && v@ == b,
            None => r is None,
        },
{
    let all = non_ws_bytes(text);
    let skip: usize = if all.len() >= 2 && all[0] == 0x30 && (all[1] == 0x78 || all[1] == 0x58) {
        2
    } else {
        0
    };
    let ghost d = hex_digits(all@);
    assert(d =~= all@.skip(skip as int));
    let n = all.len() - skip;
    if n == 0 || n % 2 != 0 {
        return None;
    }
    let mut out: Vec<u8> = Vec::new();
    let mut k: usize = 0;
    let total = all.len();
    while k < n / 2
        invariant
            total == all@.len(),
            d == all@.skip(skip as int),
            d == hex_digits(without_ws(text.spec_bytes())),
            n == d.len(),
            n % 2 == 0,
            skip + n == all@.len(),
            k <= n / 2,
            forall|i: int| 0 <= i < 2 * k ==> hex_value(#[trigger] d[i]) < 16,
            out@.len() == k,
            forall|j: int| 0 <= j < k ==> #[trigger] out@[j] == (hex_value(d[2 * j]) * 16 + hex_value(d[2 * j + 1])) as u8,
        decreases n / 2 - k,
    {
        let hi = hex_val(all[skip + 2 * k]);
        let lo = hex_val(all[skip + 2 * k + 1]);
        assert(d[2 * k as int] == all@[skip + 2 * k]);
        assert(d[2 * k + 1] == all@[skip + 2 * k + 1]);
        if hi >= 16 || lo >= 16 {
            proof {
                if hi >= 16 {
                    assert(hex_value(d[2 * k as int]) >= 16);
                } else {
                    assert(hex_value(d[2 * k + 1]) >= 16);
                }
            }
            return None;
        }
        out.push(hi * 16 + lo);
        k = k + 1;
    }
    assert(!exists|i: int| 0 <= i < d.len() && hex_value(#[trigger] d[i]) >= 16);
    assert(out@ =~= Seq::new(d.len() / 2, |j: int| (hex_value(d[2 * j]) * 16 + hex_value(d[2 * j + 1])) as u8));
    Some(out)
}

/// The 6-bit value of a base64 or base64url character, 64 or more
/// otherwise.
pub open spec fn sextet(b: u8) -> nat {
    if 0x41 <= b <= 0x5a {
        (b - 0x41) as nat
    } else if 0x61 <= b <= 0x7a {
        (b - 0x61 + 26) as nat
    } else if 0x30 <= b <= 0x39 {
        (b - 0x30 + 52) as nat
    } else if b == 0x2b || b == 0x2d {
        62
    } else if b == 0x2f || b == 0x5f {
        63
    } else {
        64
    }
}

/// Decodes the first group of unpadded base64 data: four characters give
/// three bytes; a final group of three or two characters gives two or one
/// byte, and must not leave bits over.
pub open spec fn b64_group(t: Seq<u8>) -> Option<Seq<u8>> {
    if exists|i: int| 0 <= i < t.len() && i < 4 && sextet(#[trigger] t[i]) >= 64 {
        None
    } else if t.len() >= 4 {
        let (a, b, c, e) = (sextet(t[0]), sextet(t[1]), sextet(t[2]), sextet(t[3]));
        Some(seq![(a * 4 + b / 16) as u8, ((b % 16) * 16 + c / 4) as u8, ((c % 4) * 64 + e) as u8])
    } else if t.len() == 3 {
        let (a, b, c) = (sextet(t[0]), sextet(t[1]), sextet(t[2]));
        if c % 4 == 0 {
            Some(seq![(a * 4 + b / 16) as u8, ((b % 16) * 16 + c / 4) as u8])
        } else {
            None
        }
    } else if t.len() == 2 {
        let (a, b) = (sextet(t[0]), sextet(t[1]));
        if b % 16 == 0 {
            Some(seq![(a * 4 + b / 16) as u8])
        } else {
            None
        }
    } else {
        None
    }
}

/// Decodes unpadded base64 data group by group.
pub open spec fn b64_groups(d: Seq<u8>) -> Option<Seq<u8>>
    decreases d.len(),
{
    if d.len() == 0 {
        Some(Seq::empty())
    } else {
        match b64_group(d) {
            None => None,
            Some(g) => if d.len() >= 4 {
                match b64_groups(d.skip(4)) {
                    Some(rest) => Some(g + rest),
                    None => None,
                }
            } else {
                Some(g)
            },
        }
    }
}

/// Where the `=` padding of base64 data starts (its length if none).
pub open spec fn pad_start(d: Seq<u8>) -> int {
    if exists|i: int| 0 <= i < d.len() && d[i] == 0x3d {
        choose|i: int| 0 <= i < d.len() && d[i] == 0x3d && forall|j: int| 0 <= j < i ==> d[j] != 0x3d
    } else {
        d.len() as int
    }
}

/// The bytes that a base64 or base64url string spells, padded or not, when
/// it is one; ASCII whitespace is ignored. Padding, if any, is one or two
/// `=` closing data of a length divisible by four.
pub open spec fn base64_decode(text: Seq<u8>) -> Option<Seq<u8>> {
    base64_decode_data(without_ws(text))
}

/// The bytes that base64 data without whitespace spells, when it is
/// base64.
pub open spec fn base64_decode_data(data: Seq<u8>) -> Option<Seq<u8>> {
    let u = pad_start(data);
    let padding = data.len() - u;
    if padding > 0 && (padding > 2 || data.len() % 4 != 0 || exists|i: int| u <= i < data.len() && #[trigger] data[i] != 0x3d) {
        None
    } else if u == 0 || u % 4 == 1 {
        None
    } else {
        b64_groups(data.take(u))
    }
}

fn sextet_of(b: u8) -> (v: u32)
    ensures
        v == sextet(b),
{
    if 0x41 <= b && b <= 0x5a {
        (b - 0x41) as u32
    } else if 0x61 <= b && b <= 0x7a {
        (b - 0x61 + 26) as u32
    } else if 0x30 <= b && b <= 0x39 {
        (b - 0x30 + 52) as u32
    } else if b == 0x2b || b == 0x2d {
        62
    } else if b == 0x2f || b == 0x5f {
        63
    } else {
        64
    }
}

/// Decodes a base64 or base64url string (padded or not, ASCII whitespace
/// ignored), or returns `None` if the text is not base64.
pub fn from_base64(text: &str) -> (r: Option<Vec<u8>>)
    ensures
        match base64_decode(text.spec_bytes()) {
            Some(b) => r matches Some(v) && v@ == b,
            None => r is None,
        },
{
    let data = non_ws_bytes(text);
    decode_base64_data(&data)
}

/// Decodes the group of base64 data that starts at `p`, in data ending
/// at `u`.
fn decode_group(data: &Vec<u8>, p: usize, u: usize) -> (r: Option<Vec<u8>>)
    requires
        p < u <= data@.len(),
        u - p != 1,
    ensures
        match b64_group(data@.take(u as int).skip(p as int)) {
            Some(g) => r matches Some(v) && v@ == g,
            None => r is None,
        },
{
    let ghost t = data@.take(u as int).skip(p as int);
    let left = u - p;
    assert(t[0] == data@[p as int] && t[1] == data@[p + 1]);
    if left >= 3 {
        assert(t[2] == data@[p + 2]);
    }
    if left >= 4 {
        assert(t[3] == data@[p + 3]);
    }
    let a = sextet_of(data[p]);
    let b = sextet_of(data[p + 1]);
    let c = if left >= 3 { sextet_of(data[p + 2]) } else { 0 };
    let e = if left >= 4 { sextet_of(data[p + 3]) } else { 0 };
    if a >= 64 || b >= 64 || (left >= 3 && c >= 64) || (left >= 4 && e >= 64) {
        proof {
            if a >= 64 {
                assert(sextet(t[0]) >= 64);
            } else if b >= 64 {
                assert(sextet(t[1]) >= 64);
            } else if c >= 64 {
                assert(sextet(t[2]) >= 64);
            } else {
                assert(sextet(t[3]) >= 64);
            }
        }
        return None;
    }
    assert(!exists|i: int| 0 <= i < t.len() && i < 4 && sextet(#[trigger] t[i]) >= 64);
    let mut out: Vec<u8> = Vec::new();
    if left >= 4 {
        out.push((a * 4 + b / 16) as u8);
        out.push(((b % 16) * 16 + c / 4) as u8);
        out.push(((c % 4) * 64 + e) as u8);
    } else if left == 3 {
        if c % 4 != 0 {
            return None;
        }
        out.push((a * 4 + b / 16) as u8);
        out.push(((b % 16) * 16 + c / 4) as u8);
    } else {
        if b % 16 != 0 {
            return None;
        }
        out.push((a * 4 + b / 16) as u8);
    }
    Some(out)
}

/// Decodes base64 data without whitespace.
fn decode_base64_data(data: &Vec<u8>) -> (r: Option<Vec<u8>>)
    ensures
        match base64_decode_data(data@) {
            Some(b) => r matches Some(v) && v@ == b,
            None => r is None,
        },
{
    let n = data.len();
    let mut u: usize = 0;
    while u < n && data[u] != 0x3d
        invariant
            u <= n == data@.len(),
            forall|j: int| 0 <= j < u ==> data@[j] != 0x3d,
        decreases n - u,
    {
        u = u + 1;
    }
    proof {
        if u < n {
            let w = choose|i: int| 0 <= i < data@.len() && data@[i] == 0x3d && forall|j: int| 0 <= j < i ==> data@[j] != 0x3d;
            assert(pad_start(data@) == w);
            if w < u {
            } else if w > u {
                assert(data@[u as int] != 0x3d);
            }
        }
        assert(pad_start(data@) == u);
    }
    let padding = n - u;
    if padding > 0 {
        if padding > 2 || n % 4 != 0 {
            return None;
        }
        let mut i = u;
        while i < n
            invariant
                u <= i <= n == data@.len(),
                pad_start(data@) == u,
                padding == n - u,
                padding > 0,
                forall|j: int| u <= j < i ==> data@[j] == 0x3d,
            decreases n - i,
        {
            if data[i] != 0x3d {
                assert(data@[i as int] != 0x3d);
                return None;
            }
            i = i + 1;
        }
    }
    if u == 0 || u % 4 == 1 {
        return None;
    }
    assert(base64_decode_data(data@) == b64_groups(data@.take(u as int)));
    decode_groups(data, u)
}

/// Decodes the unpadded base64 data `data[..u]` group by group.
fn decode_groups(data: &Vec<u8>, u: usize) -> (r: Option<Vec<u8>>)
    requires
        u <= data@.len(),
        u % 4 != 1,
    ensures
        match b64_groups(data@.take(u as int)) {
            Some(b) => r matches Some(v) && v@ == b,
            None => r is None,
        },
{
    let n = data.len();
    let ghost d = data@.take(u as int);
    let mut out: Vec<u8> = Vec::new();
    let mut p: usize = 0;
    assert(d.skip(0) =~= d);
    proof {
        match b64_groups(d) {
            Some(rest) => {
                assert(out@ + rest =~= rest);
            },
            None => {},
        }
    }
    while p < u
        invariant
            d == data@.take(u as int),
            u <= n == data@.len(),
            p <= u,
            p % 4 == 0 || p == u,
            u % 4 != 1,
            b64_groups(d) == (match b64_groups(d.skip(p as int)) {
                Some(rest) => Some(out@ + rest),
                None => None::<Seq<u8>>,
            }),
        decreases u - p,
    {
        let ghost t = d.skip(p as int);
        assert(t =~= data@.take(u as int).skip(p as int));
        let group = match decode_group(data, p, u) {
            Some(g) => g,
            None => return None,
        };
        let step: usize = if u - p >= 4 { 4 } else { u - p };
        let ghost before = out@;
        let mut g = group;
        out.append(&mut g);
        proof {
            if u - p >= 4 {
                assert(t.skip(4) =~= d.skip(p + 4));
                match b64_groups(t.skip(4)) {
                    Some(rest) => {
                        assert(before + (group@ + rest) =~= out@ + rest);
                    },
                    None => {},
                }
            } else {
                assert(d.skip(p + step) =~= Seq::<u8>::empty());
                assert(before + group@ =~= out@ + Seq::<u8>::empty());
            }
        }
        p = p + step;
    }
    proof {
        assert(d.skip(p as int) =~= Seq::<u8>::empty());
        assert(out@ + Seq::<u8>::empty() =~= out@);
    }
    Some(out)
}

/// What the tool does.
#[derive(Copy, Clone, Debug, PartialEq, Eq, Structural)]
pub enum Command {
    /// Show every item as diagnostic notation (no command given).
    Show,
    Decode,
    Encode,
    Validate,
}

/// What `decode` prints.
#[derive(Copy, Clone, Debug, PartialEq, Eq, Structural)]
pub enum DecodeOutput {
    Diag,
    Json,
}

/// What `encode` prints.
#[derive(Copy, Clone, Debug, PartialEq, Eq, Structural)]
pub enum EncodeOutput {
    Raw,
    Hex,
}

/// What `encode` reads.
#[derive(Copy, Clone, Debug, PartialEq, Eq, Structural)]
pub enum EncodeInput {
    Json,
    Cdn,
}

/// A parsed command line.
pub struct Args {
    pub command: Command,
    pub decode_output: DecodeOutput,
    pub encode_output: EncodeOutput,
    pub encode_input: EncodeInput,
    pub input: Option<String>,
}

/// A malformed command line.
pub enum UsageError {
    /// An option that does not exist.
    Unrecognized(String),
    /// More than one input argument.
    TooManyInputs,
    /// `--json` without `decode` or `encode`.
    JsonNeedsCommand,
    /// `--diag` without `decode` or `encode`.
    DiagNeedsCommand,
    /// `--cdn` without `decode` or `encode`.
    CdnNeedsCommand,
    /// `--json` together with `--diag` or `--cdn`.
    JsonWithDiag,
    /// `--hex` without `encode`.
    HexNeedsEncode,
}

/// The outcome of parsing a command line.
pub enum Parsed {
    /// Print the help text and stop.
    Help,
    /// Print the version and stop.
    Version,
    /// Report a usage error.
    Usage(UsageError),
    /// Run a command.
    Run(Args),
}

/// The mathematical content of a [`UsageError`].
pub enum UsageView {
    Unrecognized(Seq<char>),
    TooManyInputs,
    JsonNeedsCommand,
    DiagNeedsCommand,
    CdnNeedsCommand,
    JsonWithDiag,
    HexNeedsEncode,
}

/// The mathematical content of a [`Parsed`].
pub enum ParsedView {
    Help,
    Version,
    Usage(UsageView),
    Run(Command, DecodeOutput, EncodeOutput, EncodeInput, Option<Seq<char>>),
}

impl View for UsageError {
    type V = UsageView;

    open spec fn view(&self) -> UsageView {
        match self {
            UsageError::Unrecognized(s) => UsageView::Unrecognized(s@),
            UsageError::TooManyInputs => UsageView::TooManyInputs,
            UsageError::JsonNeedsCommand => UsageView::JsonNeedsCommand,
            UsageError::DiagNeedsCommand => UsageView::DiagNeedsCommand,
            UsageError::CdnNeedsCommand => UsageView::CdnNeedsCommand,
            UsageError::JsonWithDiag => UsageView::JsonWithDiag,
            UsageError::HexNeedsEncode => UsageView::HexNeedsEncode,
        }
    }
}

impl View for Parsed {
    type V = ParsedView;

    open spec fn view(&self) -> ParsedView {
        match self {
            Parsed::Help => ParsedView::Help,
            Parsed::Version => ParsedView::Version,
            Parsed::Usage(e) => ParsedView::Usage(e@),
            Parsed::Run(a) => ParsedView::Run(
                a.command,
                a.decode_output,
                a.encode_output,
                a.encode_input,
                match &a.input {
                    Some(s) => Some(s@),
                    None => None,
                },
            ),
        }
    }
}

/// The options seen so far while scanning a command line.
pub struct Scan {
    pub diag: bool,
    pub cdn: bool,
    pub json: bool,
    pub hex: bool,
    pub positional: Seq<Seq<char>>,
    pub input_only: bool,
}

/// How scanning a command line ends.
pub enum ScanEnd {
    Help,
    Version,
    Unrecognized(Seq<char>),
    Done(Scan),
}

/// Scans the arguments from `args[i]` on: options set flags, `--` makes
/// every later argument positional, help and version stop at once, and any
/// other argument starting with `-` (but `-` itself) is an unrecognized
/// option.
pub open spec fn scan(args: Seq<Seq<char>>, i: int, st: Scan) -> ScanEnd
    decreases args.len() - i,
{
    if i >= args.len() || i < 0 {
        ScanEnd::Done(st)
    } else {
        let a = args[i];
        if a == "--"@ {
            ScanEnd::Done(Scan { input_only: st.positional.len() == 0, positional: st.positional + args.skip(i + 1), ..st })
        } else if a == "-h"@ || a == "--help"@ {
            ScanEnd::Help
        } else if a == "-V"@ || a == "--version"@ {
            ScanEnd::Version
        } else if a == "-d"@ || a == "--diag"@ {
            scan(args, i + 1, Scan { diag: true, ..st })
        } else if a == "--cdn"@ {
            scan(args, i + 1, Scan { cdn: true, ..st })
        } else if a == "--json"@ {
            scan(args, i + 1, Scan { json: true, ..st })
        } else if a == "--hex"@ {
            scan(args, i + 1, Scan { hex: true, ..st })
        } else if a.len() > 0 && a[0] == '-' && a != "-"@ {
            ScanEnd::Unrecognized(a)
        } else {
            scan(args, i + 1, Scan { positional: st.positional.push(a), ..st })
        }
    }
}

/// The command named by the first positional argument, if it names one.
pub open spec fn command_word(w: Seq<char>) -> Option<Command> {
    if w == "decode"@ {
        Some(Command::Decode)
    } else if w == "encode"@ {
        Some(Command::Encode)
    } else if w == "validate"@ {
        Some(Command::Validate)
    } else {
        None
    }
}

/// The command line a finished scan stands for, or why it is malformed.
pub open spec fn decide(st: Scan) -> ParsedView {
    let p = st.positional;
    let named = if !st.input_only && p.len() > 0 { command_word(p[0]) } else { None };
    let (command, used) = match named {
        Some(c) => (c, 1int),
        None => (Command::Show, 0int),
    };
    let takes_options = command == Command::Decode || command == Command::Encode;
    if p.len() > used + 1 {
        ParsedView::Usage(UsageView::TooManyInputs)
    } else if st.json && !takes_options {
        ParsedView::Usage(UsageView::JsonNeedsCommand)
    } else if st.diag && !takes_options {
        ParsedView::Usage(UsageView::DiagNeedsCommand)
    } else if st.cdn && !takes_options {
        ParsedView::Usage(UsageView::CdnNeedsCommand)
    } else if st.json && (st.diag || st.cdn) {
        ParsedView::Usage(UsageView::JsonWithDiag)
    } else if st.hex && command != Command::Encode {
        ParsedView::Usage(UsageView::HexNeedsEncode)
    } else {
        ParsedView::Run(
            command,
            if st.json { DecodeOutput::Json } else { DecodeOutput::Diag },
            if st.hex { EncodeOutput::Hex } else { EncodeOutput::Raw },
            if st.json { EncodeInput::Json } else { EncodeInput::Cdn },
            if p.len() > used { Some(p[used]) } else { None },
        )
    }
}

/// The meaning of a command line (without the program name).
pub open spec fn parse_spec(args: Seq<Seq<char>>) -> ParsedView {
    match scan(args, 0, Scan { diag: false, cdn: false, json: false, hex: false, positional: Seq::empty(), input_only: false }) {
        ScanEnd::Help => ParsedView::Help,
        ScanEnd::Version => ParsedView::Version,
        ScanEnd::Unrecognized(a) => ParsedView::Usage(UsageView::Unrecognized(a)),
        ScanEnd::Done(st) => decide(st),
    }
}

/// The texts of the arguments.
pub open spec fn args_view(args: Seq<String>) -> Seq<Seq<char>> {
    Seq::new(args.len(), |i: int| args[i]@)
}

/// Whether two strings hold the same text.
pub(crate) fn same_text(a: &str, b: &str) -> (r: bool)
    ensures
        r == (a@ == b@),
{
    let r = crate::canonical::bytes_eq(a.as_bytes(), b.as_bytes());
    proof {
        vstd::utf8::encode_utf8_decode_utf8(a@);
        vstd::utf8::encode_utf8_decode_utf8(b@);
    }
    r
}

/// Parses a command line (without the program name).
pub fn parse_args(args: &Vec<String>) -> (r: Parsed)
    ensures
        r@ == parse_spec(args_view(args@)),
{
    let ghost av = args_view(args@);
    let ghost init = Scan { diag: false, cdn: false, json: false, hex: false, positional: Seq::empty(), input_only: false };
    let mut diag = false;
    let mut cdn = false;
    let mut json = false;
    let mut hex = false;
    let mut positional: Vec<String> = Vec::new();
    let mut input_only = false;
    let mut i: usize = 0;
    let mut finished = false;
    assert(args_view(positional@) =~= Seq::<Seq<char>>::empty());
    while i < args.len() && !finished
        invariant
            av == args_view(args@),
            init == (Scan { diag: false, cdn: false, json: false, hex: false, positional: Seq::empty(), input_only: false }),
            i <= args@.len(),
            !finished ==> scan(av, 0, init) == scan(
                av,
                i as int,
                Scan { diag, cdn, json, hex, positional: args_view(positional@), input_only },
            ),
            finished ==> scan(av, 0, init) == ScanEnd::Done(
                Scan { diag, cdn, json, hex, positional: args_view(positional@), input_only },
            ),
        decreases args@.len() - i, if finished { 0int } else { 1int },
    {
        let arg = args[i].as_str();
        assert(av[i as int] == arg@);
        if same_text(arg, "--") {
            input_only = positional.len() == 0;
            let ghost before = args_view(positional@);
            let mut j = i + 1;
            while j < args.len()
                invariant
                    av == args_view(args@),
                    i < j <= args@.len(),
                    args_view(positional@) == before + av.skip(i + 1).take(j - i - 1),
                decreases args@.len() - j,
            {
                let ghost prev = positional@;
                let next = args[j].clone();
                assert(next@ == av[j as int]);
                positional.push(next);
                proof {
                    assert(args_view(positional@) =~= args_view(prev).push(av[j as int]));
                    assert(av.skip(i + 1).take(j - i) =~= av.skip(i + 1).take(j - i - 1).push(av[j as int]));
                    assert(args_view(positional@) =~= before + av.skip(i + 1).take(j - i));
                }
                j = j + 1;
            }
            assert(av.skip(i + 1).take(args@.len() - i - 1) =~= av.skip(i + 1));
            finished = true;
        } else if same_text(arg, "-h") || same_text(arg, "--help") {
            assert(scan(av, i as int, Scan { diag, cdn, json, hex, positional: args_view(positional@), input_only }) == ScanEnd::Help);
            assert(parse_spec(av) == ParsedView::Help);
            return Parsed::Help;
        } else if same_text(arg, "-V") || same_text(arg, "--version") {
            assert(scan(av, i as int, Scan { diag, cdn, json, hex, positional: args_view(positional@), input_only }) == ScanEnd::Version);
            return Parsed::Version;
        } else if same_text(arg, "-d") || same_text(arg, "--diag") {
            diag = true;
            i = i + 1;
        } else if same_text(arg, "--cdn") {
            cdn = true;
            i = i + 1;
        } else if same_text(arg, "--json") {
            json = true;
            i = i + 1;
        } else if same_text(arg, "--hex") {
            hex = true;
            i = i + 1;
        } else if arg.unicode_len() > 0 && arg.get_char(0) == '-' && !same_text(arg, "-") {
            let bad = args[i].clone();
            assert(scan(av, i as int, Scan { diag, cdn, json, hex, positional: args_view(positional@), input_only })
                == ScanEnd::Unrecognized(arg@));
            assert(parse_spec(av) == ParsedView::Usage(UsageView::Unrecognized(bad@)));
            return Parsed::Usage(UsageError::Unrecognized(bad));
        } else {
            let ghost prev = positional@;
            let next = args[i].clone();
            positional.push(next);
            assert(args_view(positional@) =~= args_view(prev).push(av[i as int]));
            i = i + 1;
        }
    }
    proof {
        if !finished {
            assert(scan(av, i as int, Scan { diag, cdn, json, hex, positional: args_view(positional@), input_only })
                == ScanEnd::Done(Scan { diag, cdn, json, hex, positional: args_view(positional@), input_only }));
        }
    }
    let ghost st = Scan { diag, cdn, json, hex, positional: args_view(positional@), input_only };
    let n = positional.len();
    let mut command = Command::Show;
    let mut used: usize = 0;
    if !input_only && n > 0 {
        let first = positional[0].as_str();
        if same_text(first, "decode") {
            command = Command::Decode;
            used = 1;
        } else if same_text(first, "encode") {
            command = Command::Encode;
            used = 1;
        } else if same_text(first, "validate") {
            command = Command::Validate;
            used = 1;
        }
    }
    let takes_options = command == Command::Decode || command == Command::Encode;
    if n > used + 1 {
        return Parsed::Usage(UsageError::TooManyInputs);
    }
    if json && !takes_options {
        return Parsed::Usage(UsageError::JsonNeedsCommand);
    }
    if diag && !takes_options {
        return Parsed::Usage(UsageError::DiagNeedsCommand);
    }
    if cdn && !takes_options {
        return Parsed::Usage(UsageError::CdnNeedsCommand);
    }
    if json && (diag || cdn) {
        return Parsed::Usage(UsageError::JsonWithDiag);
    }
    if hex && command != Command::Encode {
        return Parsed::Usage(UsageError::HexNeedsEncode);
    }
    let input = if n > used {
        Some(positional[used].clone())
    } else {
        None
    };
    Parsed::Run(
        Args {
            command,
            decode_output: if json { DecodeOutput::Json } else { DecodeOutput::Diag },
            encode_output: if hex { EncodeOutput::Hex } else { EncodeOutput::Raw },
            encode_input: if json { EncodeInput::Json } else { EncodeInput::Cdn },
            input,
        },
    )
}

/// Text without whitespace is left as it is.
proof fn lemma_without_ws_none(b: Seq<u8>)
    requires
        forall|i: int| 0 <= i < b.len() ==> !is_ws(#[trigger] b[i]),
    ensures
        without_ws(b) == b,
    decreases b.len(),
{
    if b.len() > 0 {
        let d = b.drop_last();
        assert forall|i: int| 0 <= i < d.len() implies !is_ws(#[trigger] d[i]) by {
            assert(d[i] == b[i]);
        }
        lemma_without_ws_none(d);
        assert(d.push(b.last()) =~= b);
    }
}

/// The hex text of a nonempty byte string reads back as that byte string.
pub proof fn lemma_hex_roundtrip(b: Seq<u8>)
    requires
        b.len() > 0,
    ensures
        hex_decode(hex_bytes(b)) == Some(b),
{
    let h = hex_bytes(b);
    assert forall|k: int| 0 <= k < h.len() implies hex_value(#[trigger] h[k]) < 16 && !is_ws(h[k]) && h[k] != 0x78
        && h[k] != 0x58 by {
        assert(b[k / 2] / 16 < 16 && b[k / 2] % 16 < 16);
    }
    lemma_without_ws_none(h);
    assert(hex_digits(h) == h) by {
        if h.len() >= 2 {
            assert(h[1] != 0x78 && h[1] != 0x58);
        }
    }
    let decoded = Seq::new(h.len() / 2, |k: int| (hex_value(h[2 * k]) * 16 + hex_value(h[2 * k + 1])) as u8);
    assert forall|k: int| 0 <= k < b.len() implies #[trigger] decoded[k] == b[k] by {
        let x = b[k];
        assert(h[2 * k] == hex_digit((x / 16) as nat));
        assert(h[2 * k + 1] == hex_digit((x % 16) as nat));
        assert((2 * k) / 2 == k && (2 * k) % 2 == 0 && (2 * k + 1) / 2 == k && (2 * k + 1) % 2 == 1);
        assert(hex_value(hex_digit((x / 16) as nat)) == x / 16);
        assert(hex_value(hex_digit((x % 16) as nat)) == x % 16);
    }
    assert(decoded =~= b);
}

/// The uppercase hex digit of a value below 16, as an ASCII byte.
pub open spec fn upper_hex_digit(d: nat) -> u8 {
    if d < 10 {
        (0x30 + d) as u8
    } else {
        (0x41 + d - 10) as u8
    }
}

/// Uppercase hex text of a byte string, as ASCII bytes: two digits per
/// byte, high nibble first.
pub open spec fn upper_hex_bytes(b: Seq<u8>) -> Seq<u8> {
    Seq::new(
        2 * b.len(),
        |k: int| if k % 2 == 0 { upper_hex_digit((b[k / 2] / 16) as nat) } else { upper_hex_digit((b[k / 2] % 16) as nat) },
    )
}

/// Each hex digit, in either case, stands for its value: `0`-`9` for 0 to
/// 9, `a`-`f` and `A`-`F` alike for 10 to 15; no other byte is a digit.
pub proof fn lemma_hex_digits_either_case()
    ensures
        forall|d: nat| d < 16 ==> hex_value(#[trigger] hex_digit(d)) == d && hex_value(upper_hex_digit(d)) == d,
        forall|c: u8| 0x41 <= c <= 0x46 ==> #[trigger] hex_value(c) == c - 0x41 + 10 && hex_value((c + 0x20) as u8) == hex_value(c),
        forall|b: u8|
            !(0x30 <= b <= 0x39 || 0x61 <= b <= 0x66 || 0x41 <= b <= 0x46) ==> #[trigger] hex_value(b) >= 16,
{
}

/// Hex text in uppercase decodes too: for every nonempty byte string,
/// decoding its uppercase hex text gives the bytes back.
pub proof fn lemma_upper_hex_roundtrip(b: Seq<u8>)
    requires
        b.len() > 0,
    ensures
        hex_decode(upper_hex_bytes(b)) == Some(b),
{
    let h = upper_hex_bytes(b);
    assert forall|k: int| 0 <= k < h.len() implies hex_value(#[trigger] h[k]) < 16 && !is_ws(h[k]) && h[k] != 0x78
        && h[k] != 0x58 by {
        assert(b[k / 2] / 16 < 16 && b[k / 2] % 16 < 16);
    }
    lemma_without_ws_none(h);
    assert(hex_digits(h) == h) by {
        if h.len() >= 2 {
            assert(h[1] != 0x78 && h[1] != 0x58);
        }
    }
    let decoded = Seq::new(h.len() / 2, |k: int| (hex_value(h[2 * k]) * 16 + hex_value(h[2 * k + 1])) as u8);
    assert forall|k: int| 0 <= k < b.len() implies #[trigger] decoded[k] == b[k] by {
        let x = b[k];
        assert(h[2 * k] == upper_hex_digit((x / 16) as nat));
        assert(h[2 * k + 1] == upper_hex_digit((x % 16) as nat));
        assert((2 * k) / 2 == k && (2 * k) % 2 == 0 && (2 * k + 1) / 2 == k && (2 * k + 1) % 2 == 1);
        assert(hex_value(upper_hex_digit((x / 16) as nat)) == x / 16);
        assert(hex_value(upper_hex_digit((x % 16) as nat)) == x % 16);
    }
    assert(decoded =~= b);
}

/// `--json` occurs among the arguments from `i` on, before any `--`.
pub open spec fn json_given_from(args: Seq<Seq<char>>, i: int) -> bool {
    exists|k: int| i <= k < args.len() && args[k] == "--json"@ && forall|j: int| i <= j < k ==> args[j] != "--"@
}

/// `--json` occurs among the options of a command line.
pub open spec fn json_given(args: Seq<Seq<char>>) -> bool {
    json_given_from(args, 0)
}

/// One step of `json_given_from`.
proof fn lemma_json_given_step(args: Seq<Seq<char>>, i: int)
    requires
        0 <= i < args.len(),
    ensures
        json_given_from(args, i) == (args[i] == "--json"@ || (args[i] != "--"@ && json_given_from(args, i + 1))),
{
    if json_given_from(args, i) {
        let k = choose|k: int| i <= k < args.len() && args[k] == "--json"@ && forall|j: int| i <= j < k ==> args[j] != "--"@;
        if k > i {
            assert(args[i] != "--"@);
            assert(json_given_from(args, i + 1));
        }
    }
    if args[i] == "--json"@ {
        assert(forall|j: int| i <= j < i ==> args[j] != "--"@);
        assert(json_given_from(args, i));
    }
    if args[i] != "--"@ && json_given_from(args, i + 1) {
        let k = choose|k: int| i + 1 <= k < args.len() && args[k] == "--json"@ && forall|j: int| i + 1 <= j < k ==> args[j] != "--"@;
        assert forall|j: int| i <= j < k implies args[j] != "--"@ by {}
        assert(json_given_from(args, i));
    }
}

/// A finished scan has seen `--json` exactly when it was seen before or
/// occurs among the options still to scan.
proof fn lemma_scan_json(args: Seq<Seq<char>>, i: int, st: Scan)
    requires
        0 <= i,
    ensures
        scan(args, i, st) matches ScanEnd::Done(fin) ==> fin.json == (st.json || json_given_from(args, i)),
    decreases args.len() - i,
{
    reveal_strlit("--");
    reveal_strlit("--json");
    reveal_strlit("-h");
    reveal_strlit("--help");
    reveal_strlit("-V");
    reveal_strlit("--version");
    reveal_strlit("-d");
    reveal_strlit("--diag");
    reveal_strlit("--cdn");
    reveal_strlit("--hex");
    reveal_strlit("-");
    if i >= args.len() {
        assert(!json_given_from(args, i));
    } else {
        lemma_json_given_step(args, i);
        let a = args[i];
        assert("--"@.len() == 2 && "--json"@.len() == 6);
        if a == "--"@ {
            assert(a != "--json"@);
            assert(!json_given_from(args, i));
        } else if a == "-h"@ || a == "--help"@ || a == "-V"@ || a == "--version"@ {
        } else if a == "-d"@ || a == "--diag"@ {
            let next = Scan { diag: true, ..st };
            lemma_scan_json(args, i + 1, next);
            assert(scan(args, i, st) == scan(args, i + 1, next));
            assert("--diag"@[2] == 'd' && "--json"@[2] == 'j');
            assert(a != "--json"@ && a != "--"@);
        } else if a == "--cdn"@ {
            let next = Scan { cdn: true, ..st };
            lemma_scan_json(args, i + 1, next);
            assert(scan(args, i, st) == scan(args, i + 1, next));
            assert(a != "--json"@ && a != "--"@);
        } else if a == "--json"@ {
            let next = Scan { json: true, ..st };
            lemma_scan_json(args, i + 1, next);
            assert(scan(args, i, st) == scan(args, i + 1, next));
        } else if a == "--hex"@ {
            let next = Scan { hex: true, ..st };
            lemma_scan_json(args, i + 1, next);
            assert(scan(args, i, st) == scan(args, i + 1, next));
            assert(a != "--json"@ && a != "--"@);
        } else if a.len() > 0 && a[0] == '-' && a != "-"@ {
        } else {
            let next = Scan { positional: st.positional.push(a), ..st };
            lemma_scan_json(args, i + 1, next);
            assert(scan(args, i, st) == scan(args, i + 1, next));
            assert(a != "--json"@ && a != "--"@);
        }
    }
}

/// `--json` selects JSON both ways: whenever a command line runs, it
/// prints JSON from `decode` and reads JSON into `encode` exactly when
/// `--json` occurs among its options (before any `--`).
pub proof fn lemma_json_option_selects_json(args: Seq<Seq<char>>)
    ensures
        parse_spec(args) matches ParsedView::Run(c, d, e, ei, inp) ==> ((ei == EncodeInput::Json) == json_given(args)
            && (d == DecodeOutput::Json) == json_given(args)),
{
    lemma_scan_json(args, 0, Scan { diag: false, cdn: false, json: false, hex: false, positional: Seq::empty(), input_only: false });
}

/// `--hex` occurs among the arguments from `i` on, before any `--`.
pub open spec fn hex_given_from(args: Seq<Seq<char>>, i: int) -> bool {
    exists|k: int| i <= k < args.len() && args[k] == "--hex"@ && forall|j: int| i <= j < k ==> args[j] != "--"@
}

/// One step of `hex_given_from`.
proof fn lemma_hex_given_step(args: Seq<Seq<char>>, i: int)
    requires
        0 <= i < args.len(),
    ensures
        hex_given_from(args, i) == (args[i] == "--hex"@ || (args[i] != "--"@ && hex_given_from(args, i + 1))),
{
    if hex_given_from(args, i) {
        let k = choose|k: int| i <= k < args.len() && args[k] == "--hex"@ && forall|j: int| i <= j < k ==> args[j] != "--"@;
        if k > i {
            assert(args[i] != "--"@);
            assert(hex_given_from(args, i + 1));
        }
    }
    if args[i] == "--hex"@ {
        assert(hex_given_from(args, i));
    }
    if args[i] != "--"@ && hex_given_from(args, i + 1) {
        let k = choose|k: int| i + 1 <= k < args.len() && args[k] == "--hex"@ && forall|j: int| i + 1 <= j < k ==> args[j] != "--"@;
        assert(hex_given_from(args, i));
    }
}

/// A finished scan has seen `--hex` exactly when it was seen before or
/// occurs among the options still to scan.
proof fn lemma_scan_hex(args: Seq<Seq<char>>, i: int, st: Scan)
    requires
        0 <= i,
    ensures
        scan(args, i, st) matches ScanEnd::Done(fin) ==> fin.hex == (st.hex || hex_given_from(args, i)),
    decreases args.len() - i,
{
    reveal_strlit("--");
    reveal_strlit("--json");
    reveal_strlit("-h");
    reveal_strlit("--help");
    reveal_strlit("-V");
    reveal_strlit("--version");
    reveal_strlit("-d");
    reveal_strlit("--diag");
    reveal_strlit("--cdn");
    reveal_strlit("--hex");
    reveal_strlit("-");
    if i >= args.len() {
        assert(!hex_given_from(args, i));
    } else {
        lemma_hex_given_step(args, i);
        let a = args[i];
        assert("--"@.len() == 2 && "--hex"@.len() == 5 && "--cdn"@.len() == 5 && "--json"@.len() == 6);
        assert("--cdn"@[2] == 'c' && "--hex"@[2] == 'h');
        if a == "--"@ {
            assert(a != "--hex"@);
            assert(!hex_given_from(args, i));
        } else if a == "-h"@ || a == "--help"@ || a == "-V"@ || a == "--version"@ {
        } else if a == "-d"@ || a == "--diag"@ {
            let next = Scan { diag: true, ..st };
            lemma_scan_hex(args, i + 1, next);
            assert(scan(args, i, st) == scan(args, i + 1, next));
            assert(a != "--hex"@ && a != "--"@);
        } else if a == "--cdn"@ {
            let next = Scan { cdn: true, ..st };
            lemma_scan_hex(args, i + 1, next);
            assert(scan(args, i, st) == scan(args, i + 1, next));
            assert(a != "--hex"@ && a != "--"@);
        } else if a == "--json"@ {
            let next = Scan { json: true, ..st };
            lemma_scan_hex(args, i + 1, next);
            assert(scan(args, i, st) == scan(args, i + 1, next));
            assert(a != "--hex"@ && a != "--"@);
        } else if a == "--hex"@ {
            let next = Scan { hex: true, ..st };
            lemma_scan_hex(args, i + 1, next);
            assert(scan(args, i, st) == scan(args, i + 1, next));
        } else if a.len() > 0 && a[0] == '-' && a != "-"@ {
        } else {
            let next = Scan { positional: st.positional.push(a), ..st };
            lemma_scan_hex(args, i + 1, next);
            assert(scan(args, i, st) == scan(args, i + 1, next));
            assert(a != "--hex"@ && a != "--"@);
        }
    }
}

/// `--hex` selects hex output: whenever a command line runs, `encode`
/// prints hex text exactly when `--hex` occurs among its options (before
/// any `--`), and then the command is `encode`.
pub proof fn lemma_hex_option_selects_hex(args: Seq<Seq<char>>)
    ensures
        parse_spec(args) matches ParsedView::Run(c, d, e, ei, inp) ==> ((e == EncodeOutput::Hex) == hex_given_from(
            args,
            0,
        ) && (e == EncodeOutput::Hex ==> c == Command::Encode)),
{
    lemma_scan_hex(args, 0, Scan { diag: false, cdn: false, json: false, hex: false, positional: Seq::empty(), input_only: false });
}

/// The character of a 6-bit value in the standard base64 alphabet
/// (RFC 4648 §4), as an ASCII byte.
pub open spec fn b64_char(v: nat) -> u8 {
    if v < 26 {
        (0x41 + v) as u8
    } else if v < 52 {
        (0x61 + v - 26) as u8
    } else if v < 62 {
        (0x30 + v - 52) as u8
    } else if v == 62 {
        0x2b
    } else {
        0x2f
    }
}

/// The base64 characters of a byte string, without padding: four for
/// every three bytes, and two or three for a last one or two.
pub open spec fn b64_unpadded(b: Seq<u8>) -> Seq<u8>
    decreases b.len(),
{
    if b.len() >= 3 {
        let (x, y, z) = (b[0] as nat, b[1] as nat, b[2] as nat);
        seq![b64_char(x / 4), b64_char((x % 4) * 16 + y / 16), b64_char((y % 16) * 4 + z / 64), b64_char(z % 64)]
            + b64_unpadded(b.skip(3))
    } else if b.len() == 2 {
        let (x, y) = (b[0] as nat, b[1] as nat);
        seq![b64_char(x / 4), b64_char((x % 4) * 16 + y / 16), b64_char((y % 16) * 4)]
    } else if b.len() == 1 {
        let x = b[0] as nat;
        seq![b64_char(x / 4), b64_char((x % 4) * 16)]
    } else {
        Seq::empty()
    }
}

/// The padded standard base64 text of a byte string (RFC 4648 §4).
pub open spec fn base64_encode(b: Seq<u8>) -> Seq<u8> {
    b64_unpadded(b) + (if b.len() % 3 == 1 {
        seq![0x3du8, 0x3du8]
    } else if b.len() % 3 == 2 {
        seq![0x3du8]
    } else {
        Seq::empty()
    })
}

/// Each character of the alphabet reads as its value.
proof fn lemma_b64_char(v: nat)
    requires
        v < 64,
    ensures
        sextet(b64_char(v)) == v,
        b64_char(v) != 0x3d,
        !is_ws(b64_char(v)),
{
}

/// The unpadded characters: their number, and none is `=` or whitespace.
proof fn lemma_b64_unpadded_shape(b: Seq<u8>)
    ensures
        b64_unpadded(b).len() == 4 * (b.len() / 3) + (if b.len() % 3 == 0 {
            0int
        } else {
            (b.len() % 3 + 1) as int
        }),
        forall|i: int| 0 <= i < b64_unpadded(b).len() ==> #[trigger] b64_unpadded(b)[i] != 0x3d && !is_ws(
            b64_unpadded(b)[i],
        ),
    decreases b.len(),
{
    let u = b64_unpadded(b);
    if b.len() >= 3 {
        let (x, y, z) = (b[0] as nat, b[1] as nat, b[2] as nat);
        lemma_b64_unpadded_shape(b.skip(3));
        lemma_b64_char(x / 4);
        lemma_b64_char((x % 4) * 16 + y / 16);
        lemma_b64_char((y % 16) * 4 + z / 64);
        lemma_b64_char(z % 64);
        let r = b64_unpadded(b.skip(3));
        assert forall|i: int| 0 <= i < u.len() implies #[trigger] u[i] != 0x3d && !is_ws(u[i]) by {
            if i >= 4 {
                assert(u[i] == r[i - 4]);
            }
        }
    } else if b.len() == 2 {
        let (x, y) = (b[0] as nat, b[1] as nat);
        lemma_b64_char(x / 4);
        lemma_b64_char((x % 4) * 16 + y / 16);
        lemma_b64_char((y % 16) * 4);
    } else if b.len() == 1 {
        let x = b[0] as nat;
        lemma_b64_char(x / 4);
        lemma_b64_char((x % 4) * 16);
    }
}

/// Three bytes come back from their four characters.
proof fn lemma_b64_three(x: nat, y: nat, z: nat)
    requires
        x < 256,
        y < 256,
        z < 256,
    ensures
        ({
            let (a, b, c, e) = (x / 4, (x % 4) * 16 + y / 16, (y % 16) * 4 + z / 64, z % 64);
            &&& a < 64 && b < 64 && c < 64 && e < 64
            &&& a * 4 + b / 16 == x
            &&& (b % 16) * 16 + c / 4 == y
            &&& (c % 4) * 64 + e == z
            &&& ((y % 16) * 4) % 4 == 0 && ((y % 16) * 4) / 4 == y % 16
            &&& ((x % 4) * 16) % 16 == 0 && ((x % 4) * 16) / 16 == x % 4
        }),
{
    assert(x / 4 < 64 && (x % 4) * 16 + y / 16 < 64 && (y % 16) * 4 + z / 64 < 64) by (nonlinear_arith)
        requires
            x < 256,
            y < 256,
            z < 256,
    ;
    assert(((x % 4) * 16 + y / 16) / 16 == x % 4 && ((x % 4) * 16 + y / 16) % 16 == y / 16) by (nonlinear_arith)
        requires
            y < 256,
    ;
    assert(((y % 16) * 4 + z / 64) / 4 == y % 16 && ((y % 16) * 4 + z / 64) % 4 == z / 64) by (nonlinear_arith)
        requires
            z < 256,
    ;
    assert((x / 4) * 4 + x % 4 == x && (y / 16) * 16 + y % 16 == y && (z / 64) * 64 + z % 64 == z) by (nonlinear_arith);
    assert(((y % 16) * 4) % 4 == 0 && ((y % 16) * 4) / 4 == y % 16) by (nonlinear_arith);
    assert(((x % 4) * 16) % 16 == 0 && ((x % 4) * 16) / 16 == x % 4) by (nonlinear_arith);
}

/// The unpadded characters read back group by group as the bytes.
proof fn lemma_b64_groups_unpadded(b: Seq<u8>)
    ensures
        b64_groups(b64_unpadded(b)) == Some(b),
    decreases b.len(),
{
    let u = b64_unpadded(b);
    if b.len() >= 3 {
        let (x, y, z) = (b[0] as nat, b[1] as nat, b[2] as nat);
        lemma_b64_three(x, y, z);
        lemma_b64_char(x / 4);
        lemma_b64_char((x % 4) * 16 + y / 16);
        lemma_b64_char((y % 16) * 4 + z / 64);
        lemma_b64_char(z % 64);
        lemma_b64_groups_unpadded(b.skip(3));
        let r = b64_unpadded(b.skip(3));
        assert(u.skip(4) =~= r);
        assert(u[0] == b64_char(x / 4) && u[1] == b64_char((x % 4) * 16 + y / 16));
        assert(u[2] == b64_char((y % 16) * 4 + z / 64) && u[3] == b64_char(z % 64));
        assert(forall|i: int| 0 <= i < 4 ==> sextet(#[trigger] u[i]) < 64);
        assert(b64_group(u) == Some(seq![b[0], b[1], b[2]]));
        assert(seq![b[0], b[1], b[2]] + b.skip(3) =~= b);
    } else if b.len() == 2 {
        let (x, y) = (b[0] as nat, b[1] as nat);
        lemma_b64_three(x, y, 0);
        lemma_b64_char(x / 4);
        lemma_b64_char((x % 4) * 16 + y / 16);
        lemma_b64_char((y % 16) * 4);
        assert(forall|i: int| 0 <= i < 3 ==> sextet(#[trigger] u[i]) < 64);
        assert(b64_group(u) == Some(seq![b[0], b[1]]));
        assert(seq![b[0], b[1]] =~= b);
    } else if b.len() == 1 {
        let x = b[0] as nat;
        lemma_b64_three(x, 0, 0);
        lemma_b64_char(x / 4);
        lemma_b64_char((x % 4) * 16);
        assert(forall|i: int| 0 <= i < 2 ==> sextet(#[trigger] u[i]) < 64);
        assert(b64_group(u) == Some(seq![b[0]]));
        assert(seq![b[0]] =~= b);
    } else {
        assert(b =~= Seq::<u8>::empty());
    }
}

/// Base64 decoding undoes base64 encoding: for every nonempty byte string,
/// decoding its padded standard base64 text gives the bytes back.
pub proof fn lemma_base64_roundtrip(b: Seq<u8>)
    requires
        b.len() > 0,
    ensures
        base64_decode(base64_encode(b)) == Some(b),
{
    let u = b64_unpadded(b);
    let e = base64_encode(b);
    lemma_b64_unpadded_shape(b);
    lemma_b64_groups_unpadded(b);
    assert forall|i: int| 0 <= i < e.len() implies !is_ws(#[trigger] e[i]) by {
        if i < u.len() {
            assert(e[i] == u[i]);
        }
    }
    lemma_without_ws_none(e);
    assert(forall|i: int| 0 <= i < u.len() ==> e[i] == u[i]);
    assert(e.take(u.len() as int) =~= u);
    if e.len() > u.len() {
        assert(e[u.len() as int] == 0x3d);
        assert(exists|i: int| 0 <= i < e.len() && e[i] == 0x3d);
        let p = pad_start(e);
        assert(0 <= p < e.len() && e[p] == 0x3d && forall|j: int| 0 <= j < p ==> e[j] != 0x3d);
        assert(p == u.len());
        assert(forall|i: int| u.len() <= i < e.len() ==> e[i] == 0x3d);
    } else {
        assert(e =~= u);
        assert(!exists|i: int| 0 <= i < e.len() && e[i] == 0x3d);
    }
}

/// The base64 alphabets: every value below 64 has its standard
/// character, which reads back as it, and the base64url characters `-`
/// and `_` read as 62 and 63 like `+` and `/`; `=` and every other byte are
/// no characters at all.
pub proof fn lemma_base64_alphabets()
    ensures
        forall|v: nat| v < 64 ==> #[trigger] sextet(b64_char(v)) == v,
        sextet(0x2d) == 62 && sextet(0x2b) == 62,
        sextet(0x5f) == 63 && sextet(0x2f) == 63,
        sextet(0x3d) >= 64,
{
    assert forall|v: nat| v < 64 implies #[trigger] sextet(b64_char(v)) == v by {
        lemma_b64_char(v);
    }
}

/// `hex` writes lowercase: every character of the hex text of a byte
/// string is `0`-`9` or `a`-`f`, two per byte, high nibble first.
pub proof fn lemma_hex_is_lowercase(b: Seq<u8>)
    ensures
        hex_bytes(b).len() == 2 * b.len(),
        forall|k: int|
            0 <= k < hex_bytes(b).len() ==> (0x30 <= #[trigger] hex_bytes(b)[k] <= 0x39 || 0x61 <= hex_bytes(b)[k]
                <= 0x66),
        forall|k: int|
            0 <= k < b.len() ==> hex_value(#[trigger] hex_bytes(b)[2 * k]) * 16 + hex_value(hex_bytes(b)[2 * k + 1])
                == b[k],
{
    assert forall|k: int| 0 <= k < hex_bytes(b).len() implies (0x30 <= #[trigger] hex_bytes(b)[k] <= 0x39 || 0x61
        <= hex_bytes(b)[k] <= 0x66) by {
        assert(b[k / 2] / 16 < 16 && b[k / 2] % 16 < 16);
    }
    assert forall|k: int| 0 <= k < b.len() implies hex_value(#[trigger] hex_bytes(b)[2 * k]) * 16 + hex_value(
        hex_bytes(b)[2 * k + 1],
    ) == b[k] by {
        let x = b[k];
        assert((2 * k) / 2 == k && (2 * k) % 2 == 0 && (2 * k + 1) / 2 == k && (2 * k + 1) % 2 == 1);
        assert(hex_bytes(b)[2 * k] == hex_digit((x / 16) as nat));
        assert(hex_bytes(b)[2 * k + 1] == hex_digit((x % 16) as nat));
        assert(x / 16 < 16 && x % 16 < 16);
        assert((x / 16) * 16 + x % 16 == x);
    }
}

} // verus!
