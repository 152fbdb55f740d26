//! Hexadecimal floating-point literals of diagnostic notation
//! (`0x1.8p3`), converted to the nearest binary64 value without any
//! floating-point arithmetic.

use vstd::arithmetic::div_mod::{lemma_fundamental_div_mod, lemma_fundamental_div_mod_converse};
use vstd::arithmetic::power2::{lemma_pow2_adds, lemma_pow2_pos, pow2};
use vstd::prelude::*;
use vstd::string::StringSliceAdditionalSpecFns;

use crate::cdn::{digit_of, digit_value, digits_valid, digits_value, is_digit, CdnError, Problem};

verus! {

/// The number of bits of a natural number (zero has none).
pub open spec fn bit_len(m: nat) -> nat
    decreases m,
{
    if m == 0 {
        0
    } else {
        1 + bit_len(m / 2)
    }
}

/// A number is below two to the power of its bit length.
pub proof fn lemma_bit_len_bound(m: nat)
    ensures
        m < pow2(bit_len(m)),
        m > 0 ==> pow2((bit_len(m) - 1) as nat) <= m,
    decreases m,
{
    assert(pow2(0) == 1) by {
        vstd::arithmetic::power2::lemma2_to64();
    }
    if m > 0 {
        lemma_bit_len_bound(m / 2);
        assert(m == 2 * (m / 2) + m % 2);
        assert(pow2(bit_len(m)) == 2 * pow2(bit_len(m / 2))) by {
            vstd::arithmetic::power2::lemma_pow2_unfold(bit_len(m));
        }
        if m / 2 > 0 {
            assert(pow2((bit_len(m) - 1) as nat) == 2 * pow2((bit_len(m / 2) - 1) as nat)) by {
                vstd::arithmetic::power2::lemma_pow2_unfold((bit_len(m) - 1) as nat);
            }
        } else {
            assert(pow2(0) == 1) by {
                vstd::arithmetic::power2::lemma2_to64();
            }
        }
    }
}

/// The bit length of `2m + o` for a bit `o`.
proof fn lemma_bit_len_push(m: nat, o: nat)
    requires
        o < 2,
    ensures
        bit_len(2 * m + o) == if m == 0 && o == 0 { 0 } else { bit_len(m) + 1 },
{
    if !(m == 0 && o == 0) {
        assert((2 * m + o) / 2 == m);
    }
}

/// `m` rounded to `p` significant bits, `l` being its bit length: exact
/// when it has no more bits, else rounded to nearest, ties to even.
pub open spec fn round_bits(m: nat, l: nat, p: nat) -> nat {
    if l <= p {
        m * pow2((p - l) as nat)
    } else {
        let s = (l - p) as nat;
        let q = m / pow2(s);
        let r = m % pow2(s);
        let h = pow2((s - 1) as nat);
        if r > h || (r == h && q % 2 == 1) {
            q + 1
        } else {
            q
        }
    }
}

/// The state of the significand window after reading the bits of `n`:
/// its bit length, how many leading bits are kept (at most 54), those bits,
/// and whether any bit beyond them is set.
pub open spec fn window(n: nat, length: int, kept: int, sig: int, sticky: bool) -> bool {
    &&& length == bit_len(n)
    &&& kept == if length < 54 { length } else { 54 }
    &&& sig == n / pow2((length - kept) as nat)
    &&& sig < pow2(kept as nat)
    &&& sticky == (n % pow2((length - kept) as nat) != 0)
}

/// Reads one more bit into the window.
fn push_bit(length: i64, kept: u32, sig: u64, sticky: bool, one: u64, Ghost(n): Ghost<nat>) -> (r: (
    i64,
    u32,
    u64,
    bool,
))
    requires
        window(n, length as int, kept as int, sig as int, sticky),
        one < 2,
        length < 0x2000_0000_0000_0000,
    ensures
        window((2 * n + one) as nat, r.0 as int, r.1 as int, r.2 as int, r.3),
        r.0 <= length + 1,
{
    proof {
        lemma_bit_len_push(n, one as nat);
        lemma_bit_len_bound(n);
        lemma_pow2_pos((length - kept) as nat);
    }
    if length == 0 && one == 0 {
        assert(n == 0) by {
            assert(n < pow2(0)) by {
                lemma_bit_len_bound(n);
            }
            assert(pow2(0) == 1) by {
                vstd::arithmetic::power2::lemma2_to64();
            }
        }
        assert(2 * n + one == 0);
        return (length, kept, sig, sticky);
    }
    if kept < 54 {
        proof {
            assert(pow2(0) == 1) by {
                vstd::arithmetic::power2::lemma2_to64();
            }
            assert(kept == length);
            assert((length - kept) as nat == 0);
            assert(sig == n / 1);
            assert(sig == n);
            assert(pow2(kept as nat) <= pow2(53)) by {
                if kept < 53 {
                    vstd::arithmetic::power2::lemma_pow2_strictly_increases(kept as nat, 53);
                }
            }
            assert(pow2(53) == 0x20_0000_0000_0000) by {
                vstd::arithmetic::power2::lemma2_to64_rest();
            }
            assert(pow2((kept + 1) as nat) == 2 * pow2(kept as nat)) by {
                vstd::arithmetic::power2::lemma_pow2_unfold((kept + 1) as nat);
            }
            assert((2 * n + one) % 1 == 0);
            assert(((2 * n + one) as nat) / pow2(0) == 2 * n + one);
            assert(window((2 * n + one) as nat, length + 1, kept + 1, 2 * sig + one, sticky));
        }
        (length + 1, kept + 1, 2 * sig + one, sticky)
    } else {
        proof {
            let a = (length - kept) as nat;
            let p = pow2(a);
            let q = n / p;
            let rem = n % p;
            lemma_fundamental_div_mod(n as int, p as int);
            assert(pow2(a + 1) == 2 * p) by {
                vstd::arithmetic::power2::lemma_pow2_unfold(a + 1);
            }
            assert(2 * n + one == q * (2 * p) + (2 * rem + one)) by (nonlinear_arith)
                requires
                    n == p * q + rem,
            ;
            assert(0 <= 2 * rem + one < 2 * p);
            lemma_fundamental_div_mod_converse((2 * n + one) as int, (2 * p) as int, q as int, (2 * rem + one) as int);
            assert((length + 1 - kept) as nat == a + 1);
            assert(sig == q);
            assert(sticky == (rem != 0));
            assert(window((2 * n + one) as nat, length + 1, kept as int, sig as int, sticky || one != 0));
        }
        (length + 1, kept, sig, sticky || one != 0)
    }
}

/// Reads the four bits of a hex digit into the window.
fn push_digit(length: i64, kept: u32, sig: u64, sticky: bool, d: u64, Ghost(n): Ghost<nat>) -> (r: (
    i64,
    u32,
    u64,
    bool,
))
    requires
        window(n, length as int, kept as int, sig as int, sticky),
        d < 16,
        length < 0x1000_0000_0000_0000,
    ensures
        window((16 * n + d) as nat, r.0 as int, r.1 as int, r.2 as int, r.3),
        r.0 <= length + 4,
{
    let b3 = (d / 8) % 2;
    let b2 = (d / 4) % 2;
    let b1 = (d / 2) % 2;
    let b0 = d % 2;
    let ghost n3: nat = (2 * n + b3) as nat;
    let ghost n2: nat = (2 * n3 + b2) as nat;
    let ghost n1: nat = (2 * n2 + b1) as nat;
    let (l, k, s, t) = push_bit(length, kept, sig, sticky, b3, Ghost(n));
    let (l, k, s, t) = push_bit(l, k, s, t, b2, Ghost(n3));
    let (l, k, s, t) = push_bit(l, k, s, t, b1, Ghost(n2));
    let r = push_bit(l, k, s, t, b0, Ghost(n1));
    assert(2 * n1 + b0 == 16 * n + d);
    r
}

/// A literal without its leading `-` or `+`, and whether it was `-`.
pub open spec fn sign_of(b: Seq<u8>) -> (bool, Seq<u8>) {
    if b.len() > 0 && b[0] == 0x2d {
        (true, b.skip(1))
    } else if b.len() > 0 && b[0] == 0x2b {
        (false, b.skip(1))
    } else {
        (false, b)
    }
}

/// The position of the first byte of `b` equal to `x` or `y`, if any.
pub open spec fn first_of(b: Seq<u8>, x: u8, y: u8) -> Option<int> {
    if exists|i: int| 0 <= i < b.len() && (b[i] == x || b[i] == y) {
        Some(choose|i: int| 0 <= i < b.len() && (b[i] == x || b[i] == y) && forall|j: int| 0 <= j < i ==> !(b[j] == x || b[j] == y))
    } else {
        None
    }
}

/// A string without its `.` bytes.
pub open spec fn without_dots(b: Seq<u8>) -> Seq<u8>
    decreases b.len(),
{
    if b.len() == 0 {
        b
    } else if b.last() == 0x2e {
        without_dots(b.drop_last())
    } else {
        without_dots(b.drop_last()).push(b.last())
    }
}

/// The binary64 bits of a sign and an exponent field with a fraction.
pub open spec fn assemble(negative: bool, field: int, fraction: int) -> int {
    (if negative { 0x8000_0000_0000_0000int } else { 0 }) + field * 0x10_0000_0000_0000 + fraction
}

/// The nearest binary64 value (ties to even) of a significand `m`
/// scaled by two to the power `scale`, or an overflow.
#[verifier::opaque]
pub open spec fn nearest(negative: bool, m: nat, scale: int, offset: usize) -> Result<u64, CdnError> {
    let sign = assemble(negative, 0, 0);
    let l = bit_len(m);
    if l == 0 {
        Ok(sign as u64)
    } else {
        let e = if scale + l - 1 > i64::MAX { i64::MAX as int } else { scale + l - 1 };
        if e > 1023 {
            Err(CdnError::Semantic(offset, Problem::HexFloatOverflow))
        } else if e < -1075 {
            Ok(sign as u64)
        } else {
            let p = if e >= -1022 { 53 } else { (e + 1075) as nat };
            let r = round_bits(m, l, p);
            if e < -1022 {
                Ok((sign + r) as u64)
            } else if r == pow2(53) {
                if e + 1 > 1023 {
                    Err(CdnError::Semantic(offset, Problem::HexFloatOverflow))
                } else {
                    Ok(assemble(negative, e + 1 + 1023, 0) as u64)
                }
            } else {
                Ok(assemble(negative, e + 1023, (r % pow2(52)) as int) as u64)
            }
        }
    }
}

/// What the part of a hexadecimal float literal around its `p` means:
/// `mantissa` is hex digits with `.` anywhere (the digits after the first
/// `.` are fractional) and `exp` a decimal exponent with an optional sign,
/// which saturates at the `i64` range.
pub open spec fn hex_parts(negative: bool, mantissa: Seq<u8>, exp: Seq<u8>, offset: usize) -> Result<u64, CdnError> {
    let (exp_negative, exp_digits) = sign_of(exp);
    if exists|i: int| 0 <= i < exp_digits.len() && !is_digit(#[trigger] exp_digits[i]) {
        Err(CdnError::Syntax(offset))
    } else {
        let magnitude = if digits_value(exp_digits, 10) > i64::MAX {
            i64::MAX as int
        } else {
            digits_value(exp_digits, 10) as int
        };
        let exponent = if exp_negative { -magnitude } else { magnitude };
        let frac = match first_of(mantissa, 0x2e, 0x2e) {
            Some(j) => mantissa.len() - j - 1,
            None => 0,
        };
        let scale = if exponent - 4 * frac < i64::MIN { i64::MIN as int } else { exponent - 4 * frac };
        let digits = without_dots(mantissa);
        if !digits_valid(digits, 16) {
            Err(CdnError::Syntax(offset))
        } else {
            nearest(negative, digits_value(digits, 16), scale, offset)
        }
    }
}

/// What a hexadecimal float literal means: an optional sign, `0x` or `0X`,
/// the mantissa, then `p` or `P` and the exponent (see `hex_parts`).
pub open spec fn hex_float_spec(lex: Seq<u8>, offset: usize) -> Result<u64, CdnError> {
    let (negative, rest) = sign_of(lex);
    if !(rest.len() >= 2 && rest[0] == 0x30 && (rest[1] == 0x78 || rest[1] == 0x58)) {
        Err(CdnError::Syntax(offset))
    } else {
        let body = rest.skip(2);
        match first_of(body, 0x70, 0x50) {
            None => Err(CdnError::Syntax(offset)),
            Some(k) => hex_parts(negative, body.take(k), body.skip(k + 1), offset),
        }
    }
}

/// Rounding the window's bits agrees with rounding the whole number: the
/// bits beyond the window only matter through whether any is set.
proof fn lemma_round_window(m: nat, l: nat, kept: nat, sig: nat, sticky: bool, p: nat, head: nat, guard: nat, tail: nat)
    requires
        window(m, l as int, kept as int, sig as int, sticky),
        p < kept,
        head == sig / pow2((kept - p) as nat),
        guard == (sig / pow2((kept - p - 1) as nat)) % 2,
        tail == sig % pow2((kept - p - 1) as nat),
    ensures
        round_bits(m, l, p) == if guard != 0 && (sticky || tail != 0 || head % 2 != 0) {
            head + 1
        } else {
            head
        },
{
    let a = (l - kept) as nat;
    let shift = (kept - p) as nat;
    let s = (l - p) as nat;
    let pa = pow2(a);
    let ps = pow2(shift);
    let ph = pow2((shift - 1) as nat);
    lemma_pow2_pos(a);
    lemma_pow2_pos(shift);
    lemma_pow2_pos((shift - 1) as nat);
    assert(ps == 2 * ph) by {
        vstd::arithmetic::power2::lemma_pow2_unfold(shift);
    }
    assert(pow2(s) == ps * pa) by {
        lemma_pow2_adds(shift, a);
        assert(shift + a == s);
    }
    assert(pow2((s - 1) as nat) == ph * pa) by {
        lemma_pow2_adds((shift - 1) as nat, a);
        assert((shift - 1) as nat + a == (s - 1) as nat);
    }
    let low = m % pa;
    lemma_fundamental_div_mod(m as int, pa as int);
    assert(m == sig * pa + low) by (nonlinear_arith)
        requires
            m == pa * (m / pa) + m % pa,
            sig == m / pa,
            low == m % pa,
    ;
    assert(sticky == (low != 0));
    let hp = sig / ph;
    lemma_fundamental_div_mod(sig as int, ph as int);
    lemma_fundamental_div_mod(hp as int, 2);
    assert(hp / 2 == head) by {
        vstd::arithmetic::div_mod::lemma_div_denominator(sig as int, ph as int, 2);
        assert(ph * 2 == ps);
    }
    assert(hp == 2 * head + guard);
    assert(sig == hp * ph + tail) by (nonlinear_arith)
        requires
            sig == ph * (sig / ph) + sig % ph,
            hp == sig / ph,
            tail == sig % ph,
    ;
    let rr = guard * ph * pa + tail * pa + low;
    assert(m == head * pow2(s) + rr) by (nonlinear_arith)
        requires
            m == sig * pa + low,
            sig == hp * ph + tail,
            hp == 2 * head + guard,
            pow2(s) == ps * pa,
            ps == 2 * ph,
            rr == guard * ph * pa + tail * pa + low,
    ;
    assert(guard < 2);
    assert(tail < ph);
    assert(low < pa);
    assert(tail * pa + low < ph * pa) by (nonlinear_arith)
        requires
            tail < ph,
            low < pa,
            0 <= tail,
            0 <= low,
    ;
    assert(0 <= rr < pow2(s)) by (nonlinear_arith)
        requires
            rr == guard * ph * pa + tail * pa + low,
            tail * pa + low < ph * pa,
            guard < 2,
            pow2(s) == ps * pa,
            ps == 2 * ph,
            0 <= tail,
            0 <= low,
            0 <= guard,
            0 < ph,
            0 < pa,
    ;
    lemma_fundamental_div_mod_converse(m as int, pow2(s) as int, head as int, rr as int);
    let h = pow2((s - 1) as nat);
    assert(h == ph * pa);
    if guard == 0 {
        assert(rr < h) by (nonlinear_arith)
            requires
                rr == guard * ph * pa + tail * pa + low,
                guard == 0,
                tail * pa + low < ph * pa,
                h == ph * pa,
        ;
    } else {
        assert(rr == h + tail * pa + low) by (nonlinear_arith)
            requires
                rr == guard * ph * pa + tail * pa + low,
                guard == 1,
                h == ph * pa,
        ;
        assert((tail * pa + low == 0) == (tail == 0 && low == 0)) by (nonlinear_arith)
            requires
                0 <= tail,
                0 <= low,
                0 < pa,
        ;
    }
}

/// `sig` rounded to `p` significant bits, given the window over `m`.
fn round_window(sig: u64, kept: u32, sticky: bool, p: u32, Ghost(m): Ghost<nat>, Ghost(l): Ghost<nat>) -> (r: u64)
    requires
        window(m, l as int, kept as int, sig as int, sticky),
        l >= 1,
        p <= 53,
    ensures
        r == round_bits(m, l, p as nat),
        r <= pow2(p as nat),
{
    proof {
        lemma_bit_len_bound(m);
        vstd::arithmetic::power2::lemma2_to64();
        vstd::arithmetic::power2::lemma2_to64_rest();
    }
    if kept <= p {
        proof {
            assert(kept as int == l);
            assert(sig == m / 1);
            assert(m < pow2(l));
            lemma_pow2_adds(l, (p - kept) as nat);
            assert(l + (p - kept) as nat == p as nat);
            lemma_pow2_pos((p - kept) as nat);
            assert(m * pow2((p - kept) as nat) < pow2(p as nat)) by (nonlinear_arith)
                requires
                    m < pow2(l),
                    pow2(p as nat) == pow2(l) * pow2((p - kept) as nat),
                    0 < pow2((p - kept) as nat),
            ;
            if p < 53 {
                vstd::arithmetic::power2::lemma_pow2_strictly_increases(p as nat, 53);
            }
            vstd::bits::lemma_u64_shl_is_mul(sig, (p - kept) as u64);
        }
        sig << ((p - kept) as u64)
    } else {
        let shift = kept - p;
        let ghost shift_n = shift as nat;
        proof {
            vstd::bits::lemma_u64_pow2_no_overflow(shift as nat);
            vstd::bits::lemma_u64_pow2_no_overflow((shift - 1) as nat);
            vstd::bits::lemma_u64_shl_is_mul(1, shift as u64);
            vstd::bits::lemma_u64_shl_is_mul(1, (shift - 1) as u64);
        }
        let ps: u64 = 1u64 << (shift as u64);
        let ph: u64 = 1u64 << ((shift - 1) as u64);
        let head = sig / ps;
        let guard = (sig / ph) % 2;
        let tail = sig % ph;
        proof {
            lemma_round_window(m, l, kept as nat, sig as nat, sticky, p as nat, head as nat, guard as nat, tail as nat);
            assert(sig < pow2(kept as nat));
            lemma_pow2_adds(p as nat, shift as nat);
            assert(p as nat + shift as nat == kept as nat);
            assert(pow2(kept as nat) == pow2(p as nat) * ps);
            assert(ps * pow2(p as nat) == pow2(p as nat) * ps) by (nonlinear_arith);
            assert(sig < ps * pow2(p as nat));
            vstd::arithmetic::div_mod::lemma_multiply_divide_lt(sig as int, ps as int, pow2(p as nat) as int);
            assert(head < pow2(p as nat));
        }
        if guard != 0 && (sticky || tail != 0 || head % 2 != 0) {
            head + 1
        } else {
            head
        }
    }
}

/// Assembles the nearest binary64 value from the window over the
/// significand and the scale.
fn finish(negative: bool, length: i64, kept: u32, sig: u64, sticky: bool, scale: i64, offset: usize, Ghost(m): Ghost<nat>) -> (r: Result<
    u64,
    CdnError,
>)
    requires
        window(m, length as int, kept as int, sig as int, sticky),
        length < 0x1000_0000_0000_0000,
    ensures
        r == nearest(negative, m, scale as int, offset),
{
    proof {
        reveal(nearest);
        vstd::arithmetic::power2::lemma2_to64();
        vstd::arithmetic::power2::lemma2_to64_rest();
    }
    let sign: u64 = if negative { 0x8000_0000_0000_0000 } else { 0 };
    if length == 0 {
        return Ok(sign);
    }
    let e: i64 = if scale > i64::MAX - (length - 1) { i64::MAX } else { scale + (length - 1) };
    if e > 1023 {
        return Err(CdnError::Semantic(offset, Problem::HexFloatOverflow));
    }
    if e < -1075 {
        return Ok(sign);
    }
    let p: u32 = if e >= -1022 { 53 } else { (e + 1075) as u32 };
    let rounded = round_window(sig, kept, sticky, p, Ghost(m), Ghost(length as nat));
    if e < -1022 {
        proof {
            if p < 53 {
                vstd::arithmetic::power2::lemma_pow2_strictly_increases(p as nat, 53);
            }
        }
        return Ok(sign + rounded);
    }
    if rounded == 0x20_0000_0000_0000 {
        if e + 1 > 1023 {
            return Err(CdnError::Semantic(offset, Problem::HexFloatOverflow));
        }
        return Ok(sign + ((e + 1 + 1023) as u64) * 0x10_0000_0000_0000);
    }
    Ok(sign + ((e + 1023) as u64) * 0x10_0000_0000_0000 + rounded % 0x10_0000_0000_0000)
}

/// Removing dots distributes over concatenation.
proof fn lemma_without_dots_concat(a: Seq<u8>, b: Seq<u8>)
    ensures
        without_dots(a + b) == without_dots(a) + without_dots(b),
    decreases b.len(),
{
    if b.len() == 0 {
        assert(a + b =~= a);
        assert(without_dots(a) + without_dots(b) =~= without_dots(a));
    } else {
        lemma_without_dots_concat(a, b.drop_last());
        assert((a + b).drop_last() =~= a + b.drop_last());
        assert((a + b).last() == b.last());
        if b.last() == 0x2e {
        } else {
            assert(without_dots(a) + without_dots(b) =~= (without_dots(a) + without_dots(b.drop_last())).push(b.last()));
        }
    }
}

/// The first position of `x` or `y` is `k`, or there is none.
proof fn lemma_first_of(s: Seq<u8>, x: u8, y: u8, k: int)
    requires
        0 <= k <= s.len(),
        forall|j: int| 0 <= j < k ==> !(s[j] == x || s[j] == y),
        k < s.len() ==> (s[k] == x || s[k] == y),
    ensures
        first_of(s, x, y) == if k < s.len() { Some(k) } else { None::<int> },
{
    if k < s.len() {
        let w = choose|i: int| 0 <= i < s.len() && (s[i] == x || s[i] == y) && forall|j: int|
            0 <= j < i ==> !(s[j] == x || s[j] == y);
        assert(first_of(s, x, y) == Some(w));
        if w < k {
        } else if w > k {
        }
    }
}

/// The first position in `b[from..to]` of `x` or `y` (`to` if none).
fn find_either(b: &[u8], from: usize, to: usize, x: u8, y: u8) -> (k: usize)
    requires
        from <= to <= b@.len(),
    ensures
        from <= k <= to,
        forall|j: int| from <= j < k ==> !(b@[j] == x || b@[j] == y),
        k < to ==> (b@[k as int] == x || b@[k as int] == y),
{
    let mut k = from;
    while k < to && b[k] != x && b[k] != y
        invariant
            from <= k <= to <= b@.len(),
            forall|j: int| from <= j < k ==> !(b@[j] == x || b@[j] == y),
        decreases to - k,
    {
        k = k + 1;
    }
    k
}

/// The exponent digits `b[from..]`, saturated at the `i64` range, or
/// `None` when one of them is not a decimal digit.
fn scan_exponent(b: &[u8], from: usize) -> (r: Option<i64>)
    requires
        from <= b@.len(),
    ensures
        ({
            let d = b@.skip(from as int);
            if exists|j: int| 0 <= j < d.len() && !is_digit(#[trigger] d[j]) {
                r is None
            } else {
                r == Some((if digits_value(d, 10) > i64::MAX { i64::MAX as int } else { digits_value(d, 10) as int }) as i64)
            }
        }),
{
    let n = b.len();
    let ghost d = b@.skip(from as int);
    let mut exponent: i64 = 0;
    let mut i = from;
    assert(d.take(0) =~= Seq::<u8>::empty());
    while i < n
        invariant
            from <= i <= n == b@.len(),
            d == b@.skip(from as int),
            forall|j: int| 0 <= j < i - from ==> is_digit(#[trigger] d[j]),
            exponent == (if digits_value(d.take(i - from), 10) > i64::MAX {
                i64::MAX as int
            } else {
                digits_value(d.take(i - from), 10) as int
            }),
        decreases n - i,
    {
        let c = b[i];
        assert(d[i - from] == c);
        if !(0x30 <= c && c <= 0x39) {
            assert(!is_digit(d[i - from]));
            return None;
        }
        let x = (c - 0x30) as i64;
        proof {
            let t = d.take(i - from);
            let t1 = d.take(i - from + 1);
            assert(t1.drop_last() =~= t);
            assert(t1.last() == c);
            assert(digit_of(c) == x);
            assert(digits_value(t1, 10) == digits_value(t, 10) * 10 + x);
        }
        if exponent > (i64::MAX - x) / 10 {
            exponent = i64::MAX;
        } else {
            exponent = exponent * 10 + x;
        }
        i = i + 1;
    }
    assert(d.take(n - from) =~= d);
    Some(exponent)
}

/// Reads the hex digits of `b[from..to]`, skipping dots, into a window,
/// or returns `None` when a byte is neither a dot nor a hex digit.
fn read_mantissa(b: &[u8], from: usize, to: usize) -> (r: Option<(i64, u32, u64, bool)>)
    requires
        from <= to <= b@.len(),
        b@.len() < 0x0100_0000_0000_0000,
    ensures
        ({
            let ds = without_dots(b@.subrange(from as int, to as int));
            match r {
                None => !digits_valid(ds, 16),
                Some((length, kept, sig, sticky)) => digits_valid(ds, 16) && window(
                    digits_value(ds, 16),
                    length as int,
                    kept as int,
                    sig as int,
                    sticky,
                ) && length < 0x1000_0000_0000_0000,
            }
        }),
{
    let ghost bv = b@;
    let mut length: i64 = 0;
    let mut kept: u32 = 0;
    let mut sig: u64 = 0;
    let mut sticky = false;
    let mut j = from;
    proof {
        lemma_pow2_pos(0);
        vstd::arithmetic::power2::lemma2_to64();
        assert(bv.subrange(from as int, from as int) =~= Seq::<u8>::empty());
    }
    while j < to
        invariant
            from <= j <= to <= bv.len(),
            bv.len() < 0x0100_0000_0000_0000,
            bv == b@,
            digits_valid(without_dots(bv.subrange(from as int, j as int)), 16),
            window(digits_value(without_dots(bv.subrange(from as int, j as int)), 16), length as int, kept as int, sig as int, sticky),
            0 <= length <= 4 * (j - from),
        decreases to - j,
    {
        let c = b[j];
        let ghost pre = bv.subrange(from as int, j as int);
        let ghost pre1 = bv.subrange(from as int, j + 1);
        assert(pre1.drop_last() =~= pre);
        assert(pre1.last() == c);
        if c == 0x2e {
            assert(without_dots(pre1) == without_dots(pre));
        } else {
            let d = digit_value(c);
            let ghost ds = without_dots(pre);
            assert(without_dots(pre1) == ds.push(c));
            if d >= 16 {
                proof {
                    lemma_without_dots_concat(pre1, bv.subrange(j + 1, to as int));
                    assert(pre1 + bv.subrange(j + 1, to as int) =~= bv.subrange(from as int, to as int));
                    let all = without_dots(bv.subrange(from as int, to as int));
                    assert(all[ds.len() as int] == c);
                }
                return None;
            }
            let ghost m0 = digits_value(ds, 16);
            let r = push_digit(length, kept, sig, sticky, d as u64, Ghost(m0));
            length = r.0;
            kept = r.1;
            sig = r.2;
            sticky = r.3;
            proof {
                assert(digits_value(ds.push(c), 16) == m0 * 16 + digit_of(c)) by {
                    assert(ds.push(c).drop_last() =~= ds);
                }
                assert forall|x: int| 0 <= x < ds.push(c).len() implies digit_of(#[trigger] ds.push(c)[x]) < 16 by {
                    if x < ds.len() {
                        assert(ds.push(c)[x] == ds[x]);
                    }
                }
            }
        }
        j = j + 1;
    }
    Some((length, kept, sig, sticky))
}

/// `sign_of` of a suffix of a byte string.
proof fn lemma_sign_of_skip(bv: Seq<u8>, at: int)
    requires
        0 <= at <= bv.len(),
    ensures
        sign_of(bv.skip(at)) == if at < bv.len() && bv[at] == 0x2d {
            (true, bv.skip(at + 1))
        } else if at < bv.len() && bv[at] == 0x2b {
            (false, bv.skip(at + 1))
        } else {
            (false, bv.skip(at))
        },
{
    if at < bv.len() {
        assert(bv.skip(at)[0] == bv[at]);
        assert(bv.skip(at).skip(1) =~= bv.skip(at + 1));
    }
}

/// Parses the mantissa `b[body..k]` and the exponent after the `p` at `k`.
fn parse_parts(b: &[u8], negative: bool, body: usize, k: usize, offset: usize) -> (r: Result<u64, CdnError>)
    requires
        body <= k < b@.len() < 0x0100_0000_0000_0000,
    ensures
        r == hex_parts(negative, b@.subrange(body as int, k as int), b@.skip(k + 1), offset),
{
    let n = b.len();
    let ghost bv = b@;
    let ghost mantissa = bv.subrange(body as int, k as int);
    let exp_negative = k + 1 < n && b[k + 1] == 0x2d;
    let es: usize = if k + 1 < n && (b[k + 1] == 0x2d || b[k + 1] == 0x2b) { k + 2 } else { k + 1 };
    proof {
        lemma_sign_of_skip(bv, k + 1);
    }
    let exponent = match scan_exponent(b, es) {
        Some(x) => if exp_negative { -x } else { x },
        None => return Err(CdnError::Syntax(offset)),
    };
    let dot = find_either(b, body, k, 0x2e, 0x2e);
    proof {
        assert forall|j: int| 0 <= j < dot - body implies !(mantissa[j] == 0x2e || mantissa[j] == 0x2e) by {
            assert(mantissa[j] == bv[body + j]);
        }
        if dot < k {
            assert(mantissa[dot - body] == bv[dot as int]);
        }
        lemma_first_of(mantissa, 0x2e, 0x2e, dot - body);
    }
    let frac: usize = if dot < k { k - dot - 1 } else { 0 };
    let f4 = (frac as i64) * 4;
    let scale: i64 = if exponent < i64::MIN + f4 { i64::MIN } else { exponent - f4 };
    match read_mantissa(b, body, k) {
        None => Err(CdnError::Syntax(offset)),
        Some((length, kept, sig, sticky)) => finish(
            negative,
            length,
            kept,
            sig,
            sticky,
            scale,
            offset,
            Ghost(digits_value(without_dots(mantissa), 16)),
        ),
    }
}

/// Parses a hexadecimal floating-point literal into the bits of the
/// nearest binary64 value (ties to even); values below the smallest
/// subnormal become zero of the same sign.
pub fn parse_hex_float(lex: &str, offset: usize) -> (r: Result<u64, CdnError>)
    requires
        lex.spec_bytes().len() < 0x0100_0000_0000_0000,
    ensures
        r == hex_float_spec(lex.spec_bytes(), offset),
{
    let b = lex.as_bytes();
    let n = b.len();
    let ghost bv = b@;
    let negative = n > 0 && b[0] == 0x2d;
    let start: usize = if n > 0 && (b[0] == 0x2d || b[0] == 0x2b) { 1 } else { 0 };
    proof {
        lemma_sign_of_skip(bv, 0);
        assert(bv.skip(0) =~= bv);
    }
    let ghost rest = bv.skip(start as int);
    assert(sign_of(bv) == (negative, rest));
    if !(n - start >= 2 && b[start] == 0x30 && (b[start + 1] == 0x78 || b[start + 1] == 0x58)) {
        return Err(CdnError::Syntax(offset));
    }
    assert(rest[0] == bv[start as int] && rest[1] == bv[start + 1]);
    let body = start + 2;
    let ghost bodyv = rest.skip(2);
    assert(bodyv =~= bv.skip(body as int));
    let k = find_either(b, body, n, 0x70, 0x50);
    proof {
        assert forall|j: int| 0 <= j < k - body implies !(bodyv[j] == 0x70 || bodyv[j] == 0x50) by {
            assert(bodyv[j] == bv[body + j]);
        }
        if k < n {
            assert(bodyv[k - body] == bv[k as int]);
        }
        lemma_first_of(bodyv, 0x70, 0x50, k - body);
    }
    if k == n {
        return Err(CdnError::Syntax(offset));
    }
    let ghost kk = (k - body) as int;
    assert(bodyv.take(kk) =~= bv.subrange(body as int, k as int));
    assert(bodyv.skip(kk + 1) =~= bv.skip(k + 1));
    parse_parts(b, negative, body, k, offset)
}

/// The lowercase digit of a value below sixteen.
pub open spec fn hex_digit_char(d: nat) -> u8 {
    if d < 10 {
        (0x30 + d) as u8
    } else {
        (0x61 + d - 10) as u8
    }
}

/// The digits of `m` in `base` (ten or sixteen, lowercase), most
/// significant first, without leading zeros (`0` for zero).
pub open spec fn digits_text(m: nat, base: nat) -> Seq<u8>
    decreases m,
{
    if base < 2 || m < base {
        seq![hex_digit_char(m)]
    } else {
        proof {
            assert(m / base < m) by (nonlinear_arith)
                requires
                    base >= 2,
                    m >= base,
            ;
        }
        digits_text(m / base, base).push(hex_digit_char(m % base))
    }
}

/// A digit character reads back as its value.
proof fn lemma_hex_digit_char(d: nat)
    requires
        d < 16,
    ensures
        digit_of(hex_digit_char(d)) == d,
        d < 10 ==> is_digit(hex_digit_char(d)),
        hex_digit_char(d) != 0x2e && hex_digit_char(d) != 0x70 && hex_digit_char(d) != 0x50,
        hex_digit_char(d) != 0x2d && hex_digit_char(d) != 0x2b,
{
}

/// A byte of a digit text is a digit of its base, and none is a dot or
/// an exponent marker.
pub open spec fn plain_digit(c: u8, base: nat) -> bool {
    digit_of(c) < base && c != 0x2e && c != 0x70 && c != 0x50 && c != 0x2d && c != 0x2b
}

/// The digit text of `m` reads back as `m`.
proof fn lemma_digits_text(m: nat, base: nat)
    requires
        base == 10 || base == 16,
    ensures
        digits_text(m, base).len() > 0,
        forall|i: int| 0 <= i < digits_text(m, base).len() ==> plain_digit(#[trigger] digits_text(m, base)[i], base),
        digits_value(digits_text(m, base), base) == m,
        base == 10 ==> forall|i: int| 0 <= i < digits_text(m, base).len() ==> is_digit(#[trigger] digits_text(m, base)[i]),
    decreases m,
{
    if m >= base {
        lemma_digits_text(m / base, base);
        lemma_hex_digit_char(m % base);
        let t = digits_text(m, base);
        let u = digits_text(m / base, base);
        assert(t.drop_last() =~= u);
        assert forall|i: int| 0 <= i < t.len() implies plain_digit(#[trigger] t[i], base) by {
            if i < u.len() {
                assert(t[i] == u[i]);
            }
        }
        if base == 10 {
            assert forall|i: int| 0 <= i < t.len() implies is_digit(#[trigger] t[i]) by {
                if i < u.len() {
                    assert(t[i] == u[i]);
                }
            }
        }
        assert(m == (m / base) * base + m % base) by (nonlinear_arith)
            requires
                base > 0,
        ;
        assert(t.last() == hex_digit_char(m % base));
        assert(digits_value(t, base) == digits_value(u, base) * base + digit_of(t.last()));
    } else {
        lemma_hex_digit_char(m);
        let t = digits_text(m, base);
        assert(t.drop_last() =~= Seq::<u8>::empty());
        assert(digits_value(t, base) == digits_value(t.drop_last(), base) * base + digit_of(t.last()));
        assert(digits_value(t.drop_last(), base) == 0);
    }
}

/// A text without dots is its own dotless form.
proof fn lemma_without_dots_none(b: Seq<u8>)
    requires
        forall|i: int| 0 <= i < b.len() ==> b[i] != 0x2e,
    ensures
        without_dots(b) == b,
    decreases b.len(),
{
    if b.len() > 0 {
        lemma_without_dots_none(b.drop_last());
        assert(without_dots(b.drop_last()).push(b.last()) =~= b);
    }
}

/// A decimal power of two as written: an optional `-`, then digits.
pub open spec fn power_text(p: int) -> Seq<u8> {
    if p < 0 {
        seq![0x2du8] + digits_text((-p) as nat, 10)
    } else {
        digits_text(p as nat, 10)
    }
}

/// A hexadecimal literal without a fraction: a sign when negative, `0x`,
/// the significand's lowercase digits, `p` and the power of two.
pub open spec fn plain_literal(negative: bool, m: nat, p: int) -> Seq<u8> {
    (if negative { seq![0x2du8] } else { Seq::empty() }) + seq![0x30u8, 0x78u8] + digits_text(m, 16) + seq![0x70u8]
        + power_text(p)
}

/// A literal without a fraction means its significand scaled by its
/// power of two, rounded to the nearest binary64 value.
proof fn lemma_plain_literal(negative: bool, m: nat, p: int, offset: usize)
    requires
        -i64::MAX <= p <= i64::MAX,
    ensures
        hex_float_spec(plain_literal(negative, m, p), offset) == nearest(negative, m, p, offset),
{
    let h = digits_text(m, 16);
    let pt = power_text(p);
    let lex = plain_literal(negative, m, p);
    let rest = seq![0x30u8, 0x78u8] + h + seq![0x70u8] + pt;
    lemma_digits_text(m, 16);
    let q = if p < 0 { (-p) as nat } else { p as nat };
    lemma_digits_text(q, 10);
    let dt = digits_text(q, 10);
    if negative {
        assert(lex =~= seq![0x2du8] + rest);
        assert(lex.skip(1) =~= rest);
    } else {
        assert(lex =~= rest);
    }
    assert(sign_of(lex) == (negative, rest));
    let body = rest.skip(2);
    assert(body =~= h + seq![0x70u8] + pt);
    assert forall|j: int| 0 <= j < h.len() implies !(body[j] == 0x70 || body[j] == 0x50) by {
        assert(body[j] == h[j]);
        assert(plain_digit(h[j], 16));
    }
    lemma_first_of(body, 0x70, 0x50, h.len() as int);
    assert(body.take(h.len() as int) =~= h);
    assert(body.skip(h.len() as int + 1) =~= pt);
    if p < 0 {
        assert(pt.skip(1) =~= dt);
        assert(sign_of(pt) == (true, dt));
    } else {
        assert(plain_digit(dt[0], 10));
        assert(sign_of(pt) == (false, dt));
    }
    assert(q <= i64::MAX);
    assert forall|j: int| 0 <= j < h.len() implies !(h[j] == 0x2e || h[j] == 0x2e) by {
        assert(plain_digit(h[j], 16));
    }
    lemma_first_of(h, 0x2e, 0x2e, h.len() as int);
    assert forall|j: int| 0 <= j < h.len() implies h[j] != 0x2e by {
        assert(plain_digit(h[j], 16));
    }
    lemma_without_dots_none(h);
    assert forall|j: int| 0 <= j < h.len() implies digit_of(#[trigger] h[j]) < 16 by {
        assert(plain_digit(h[j], 16));
    }
}

/// The significand of a finite binary64 pattern, with the hidden bit of a
/// normal number.
pub open spec fn significand_of(b: u64) -> nat {
    let e = (b >> 52u64) & 0x7ffu64;
    let f = b & 0xf_ffff_ffff_ffffu64;
    if e == 0 {
        f as nat
    } else {
        (f + 0x10_0000_0000_0000) as nat
    }
}

/// The power of two that scales the significand of a finite pattern.
pub open spec fn power_of(b: u64) -> int {
    let e = (b >> 52u64) & 0x7ffu64;
    if e == 0 {
        -1074
    } else {
        e - 1075
    }
}

/// The literal that writes a finite binary64 value exactly: its sign,
/// its significand in hex and its power of two in decimal.
pub open spec fn exact_literal(b: u64) -> Seq<u8> {
    plain_literal(b >> 63u64 == 1, significand_of(b), power_of(b))
}

/// The bit length of a number between two consecutive powers of two.
proof fn lemma_bit_len_between(m: nat, k: nat)
    requires
        k > 0,
        pow2((k - 1) as nat) <= m < pow2(k),
    ensures
        bit_len(m) == k,
{
    lemma_pow2_pos(0);
    lemma_bit_len_bound(m);
    let l = bit_len(m);
    if l < k {
        if l < k - 1 {
            vstd::arithmetic::power2::lemma_pow2_strictly_increases(l, (k - 1) as nat);
        }
    } else if l > k {
        vstd::arithmetic::power2::lemma_pow2_strictly_increases(k, (l - 1) as nat);
    }
}

/// Rounding a finite pattern's own significand at its own scale gives the
/// pattern back.
proof fn lemma_nearest_exact(b: u64, offset: usize)
    requires
        (b >> 52u64) & 0x7ffu64 != 0x7ff,
    ensures
        nearest(b >> 63u64 == 1, significand_of(b), power_of(b), offset) == Ok::<u64, CdnError>(b),
        -1075 <= power_of(b) <= 0x7ff,
{
    reveal(nearest);
    vstd::arithmetic::power2::lemma2_to64();
    vstd::arithmetic::power2::lemma2_to64_rest();
    let e = (b >> 52u64) & 0x7ffu64;
    let f = b & 0xf_ffff_ffff_ffffu64;
    assert(b == (b >> 63u64) * 0x8000_0000_0000_0000u64 + ((b >> 52u64) & 0x7ffu64) * 0x10_0000_0000_0000u64 + (b
        & 0xf_ffff_ffff_ffffu64) && b >> 63u64 <= 1 && (b >> 52u64) & 0x7ffu64 <= 0x7ff && (b & 0xf_ffff_ffff_ffffu64)
        < 0x10_0000_0000_0000u64) by (bit_vector);
    let m = significand_of(b);
    if e == 0 {
        if f > 0 {
            lemma_bit_len_bound(m);
            let l = bit_len(m);
            if l > 52 {
                vstd::arithmetic::power2::lemma_pow2_strictly_increases(52, (l - 1) as nat);
            }
            assert(1 <= l <= 52);
            assert(pow2(0) == 1);
            assert(round_bits(m, l, l) == m * pow2(0));
        }
    } else {
        lemma_bit_len_between(m, 53);
        assert(pow2(0) == 1);
        assert(round_bits(m, 53, 53) == m * pow2(0));
        assert(m % pow2(52) == f) by {
            assert(m == f + pow2(52));
            vstd::arithmetic::div_mod::lemma_mod_add_multiples_vanish(f as int, pow2(52) as int);
            vstd::arithmetic::div_mod::lemma_small_mod(f as nat, pow2(52));
        }
    }
}

/// Every finite binary64 value is read back exactly from the literal that
/// writes its significand in hex and its power of two in decimal.
pub proof fn lemma_exact_literal_round_trip(b: u64, offset: usize)
    requires
        (b >> 52u64) & 0x7ffu64 != 0x7ff,
    ensures
        hex_float_spec(exact_literal(b), offset) == Ok::<u64, CdnError>(b),
{
    lemma_nearest_exact(b, offset);
    assert(power_of(b) >= -1075 && power_of(b) <= 0x7ff);
    lemma_plain_literal(b >> 63u64 == 1, significand_of(b), power_of(b), offset);
}

} // verus!
