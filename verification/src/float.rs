//! Exact conversions between the IEEE 754 binary16, binary32 and binary64
//! bit layouts.
//!
//! Floating-point values are handled as their bit patterns. Widening a
//! narrow pattern is always exact (NaN sign, signaling bit and payload
//! included); narrowing succeeds if and only if the wide pattern is the
//! widening of some narrow one.

use vstd::prelude::*;

verus! {

/// Mask of the 52 fraction bits of a binary64 pattern.
pub open spec fn frac_mask() -> u64 {
    0x000f_ffff_ffff_ffffu64
}

/// Index of the most significant set bit of `f` (0 for `f <= 1`).
pub open spec fn top_bit(f: u64) -> u64
    decreases f,
{
    if f <= 1 {
        0
    } else {
        proof {
            assert(f > 1 ==> (f >> 1u64) < f) by (bit_vector);
        }
        (1 + top_bit(f >> 1u64)) as u64
    }
}

/// The binary64 pattern holding the same value as the binary16 pattern `h`.
pub open spec fn widen16(h: u16) -> u64 {
    let sign = ((h >> 15u16) as u64) << 63u64;
    let exp = ((h >> 10u16) & 0x1fu16) as u64;
    let frac = (h & 0x3ffu16) as u64;
    if exp == 31 {
        sign | 0x7ff0_0000_0000_0000u64 | (frac << 42u64)
    } else if exp == 0 {
        if frac == 0 {
            sign
        } else {
            let p = top_bit(frac);
            sign | (((p + 999) as u64) << 52u64) | ((frac << ((52 - p) as u64)) & frac_mask())
        }
    } else {
        sign | (((exp + 1008) as u64) << 52u64) | (frac << 42u64)
    }
}

/// The binary64 pattern holding the same value as the binary32 pattern `s`.
pub open spec fn widen32(s: u32) -> u64 {
    let sign = ((s >> 31u32) as u64) << 63u64;
    let exp = ((s >> 23u32) & 0xffu32) as u64;
    let frac = (s & 0x7f_ffffu32) as u64;
    if exp == 255 {
        sign | 0x7ff0_0000_0000_0000u64 | (frac << 29u64)
    } else if exp == 0 {
        if frac == 0 {
            sign
        } else {
            let p = top_bit(frac);
            sign | (((p + 874) as u64) << 52u64) | ((frac << ((52 - p) as u64)) & frac_mask())
        }
    } else {
        sign | (((exp + 896) as u64) << 52u64) | (frac << 29u64)
    }
}

/// The binary16 candidate for a binary64 pattern: the only pattern that
/// could widen back to `b`, when its dropped bits are zero.
pub open spec fn candidate16(b: u64) -> Option<u16> {
    let sign = ((b >> 48u64) & 0x8000u64) as u16;
    let exp = (b >> 52u64) & 0x7ffu64;
    let frac = b & frac_mask();
    if exp == 0x7ff {
        if frac & 0x3ff_ffff_ffffu64 != 0 {
            None
        } else {
            Some(sign | 0x7c00u16 | ((frac >> 42u64) as u16))
        }
    } else if exp == 0 && frac == 0 {
        Some(sign)
    } else if 1009 <= exp && exp <= 1038 {
        if frac & 0x3ff_ffff_ffffu64 != 0 {
            None
        } else {
            Some(sign | (((exp - 1008) as u16) << 10u16) | ((frac >> 42u64) as u16))
        }
    } else if 999 <= exp && exp <= 1008 {
        let mantissa = 0x0010_0000_0000_0000u64 | frac;
        let shift = (1051 - exp) as u64;
        if mantissa & ((1u64 << shift) - 1) as u64 != 0 {
            None
        } else {
            Some(sign | ((mantissa >> shift) as u16))
        }
    } else {
        None
    }
}

/// The binary32 candidate for a binary64 pattern.
pub open spec fn candidate32(b: u64) -> Option<u32> {
    let sign = ((b >> 32u64) & 0x8000_0000u64) as u32;
    let exp = (b >> 52u64) & 0x7ffu64;
    let frac = b & frac_mask();
    if exp == 0x7ff {
        if frac & 0x1fff_ffffu64 != 0 {
            None
        } else {
            Some(sign | 0x7f80_0000u32 | ((frac >> 29u64) as u32))
        }
    } else if exp == 0 && frac == 0 {
        Some(sign)
    } else if 897 <= exp && exp <= 1150 {
        if frac & 0x1fff_ffffu64 != 0 {
            None
        } else {
            Some(sign | (((exp - 896) as u32) << 23u32) | ((frac >> 29u64) as u32))
        }
    } else if 874 <= exp && exp <= 896 {
        let mantissa = 0x0010_0000_0000_0000u64 | frac;
        let shift = (926 - exp) as u64;
        if mantissa & ((1u64 << shift) - 1) as u64 != 0 {
            None
        } else {
            Some(sign | ((mantissa >> shift) as u32))
        }
    } else {
        None
    }
}

/// The lossless binary16 form of a binary64 pattern, if there is one.
pub open spec fn narrow16(b: u64) -> Option<u16> {
    match candidate16(b) {
        Some(h) => if widen16(h) == b { Some(h) } else { None },
        None => None,
    }
}

/// The lossless binary32 form of a binary64 pattern, if there is one.
pub open spec fn narrow32(b: u64) -> Option<u32> {
    match candidate32(b) {
        Some(s) => if widen32(s) == b { Some(s) } else { None },
        None => None,
    }
}

/// Whether a binary64 pattern is a NaN.
pub open spec fn is_nan_bits(b: u64) -> bool {
    (b >> 52u64) & 0x7ffu64 == 0x7ff && b & frac_mask() != 0
}

/// The bit pattern of Rust's `f64::NAN`, the canonical quiet NaN.
pub open spec fn canonical_nan() -> u64 {
    0x7ff8_0000_0000_0000u64
}

/// The bit pattern of `-0.0`.
pub open spec fn negative_zero() -> u64 {
    0x8000_0000_0000_0000u64
}

proof fn lemma_top_bit(f: u64)
    requires
        f >= 1,
    ensures
        (f >> top_bit(f)) == 1,
        top_bit(f) < 64,
    decreases f,
{
    if f > 1 {
        let g = f >> 1u64;
        assert(f > 1 ==> g >= 1 && g < f) by (bit_vector)
            requires
                g == f >> 1u64,
        ;
        lemma_top_bit(g);
        let t = top_bit(g);
        assert(t < 64 && (g >> t) == 1 ==> t < 63 && (f >> (1 + t)) == 1) by (bit_vector)
            requires
                g == f >> 1u64,
        ;
    } else {
        assert(f == 1 ==> (f >> 0u64) == 1) by (bit_vector);
    }
}

/// Computes the index of the most significant set bit.
fn top_bit_exec(f: u64) -> (p: u64)
    requires
        f >= 1,
    ensures
        p == top_bit(f),
        (f >> p) == 1,
        p < 64,
{
    let mut g = f;
    let mut p: u64 = 0;
    proof {
        lemma_top_bit(f);
    }
    while g > 1
        invariant
            g >= 1,
            p + top_bit(g) == top_bit(f),
            top_bit(f) < 64,
        decreases g,
    {
        assert(g > 1 ==> (g >> 1u64) < g && (g >> 1u64) >= 1) by (bit_vector);
        g = g >> 1u64;
        p = p + 1;
        proof {
            lemma_top_bit(g);
        }
    }
    p
}

/// Widens IEEE 754 half-precision bits to double-precision bits, exactly.
pub fn f16_to_f64_bits(h: u16) -> (b: u64)
    ensures
        b == widen16(h),
{
    let sign = ((h >> 15u16) as u64) << 63u64;
    let exp = ((h >> 10u16) & 0x1fu16) as u64;
    let frac = (h & 0x3ffu16) as u64;
    assert(h & 0x3ffu16 <= 0x3ffu16) by (bit_vector);
    if exp == 31 {
        sign | 0x7ff0_0000_0000_0000u64 | (frac << 42u64)
    } else if exp == 0 {
        if frac == 0 {
            sign
        } else {
            let p = top_bit_exec(frac);
            assert(frac < 1024 && (frac >> p) == 1 && p < 64 ==> p <= 9) by (bit_vector);
            sign | ((p + 999) << 52u64) | ((frac << (52 - p)) & 0x000f_ffff_ffff_ffffu64)
        }
    } else {
        sign | ((exp + 1008) << 52u64) | (frac << 42u64)
    }
}

/// Widens IEEE 754 single-precision bits to double-precision bits, exactly
/// (a numeric cast could quieten a signaling NaN).
pub fn f32_to_f64_bits(s: u32) -> (b: u64)
    ensures
        b == widen32(s),
{
    let sign = ((s >> 31u32) as u64) << 63u64;
    let exp = ((s >> 23u32) & 0xffu32) as u64;
    let frac = (s & 0x7f_ffffu32) as u64;
    assert(s & 0x7f_ffffu32 <= 0x7f_ffffu32) by (bit_vector);
    if exp == 255 {
        sign | 0x7ff0_0000_0000_0000u64 | (frac << 29u64)
    } else if exp == 0 {
        if frac == 0 {
            sign
        } else {
            let p = top_bit_exec(frac);
            assert(frac < 0x80_0000 && (frac >> p) == 1 && p < 64 ==> p <= 22) by (bit_vector);
            sign | ((p + 874) << 52u64) | ((frac << (52 - p)) & 0x000f_ffff_ffff_ffffu64)
        }
    } else {
        sign | ((exp + 896) << 52u64) | (frac << 29u64)
    }
}

/// Computes the binary16 candidate of a binary64 pattern.
fn candidate16_exec(b: u64) -> (r: Option<u16>)
    ensures
        r == candidate16(b),
{
    let sign = ((b >> 48u64) & 0x8000u64) as u16;
    let exp = (b >> 52u64) & 0x7ffu64;
    let frac = b & 0x000f_ffff_ffff_ffffu64;
    if exp == 0x7ff {
        if frac & 0x3ff_ffff_ffffu64 != 0 {
            None
        } else {
            Some(sign | 0x7c00u16 | ((frac >> 42u64) as u16))
        }
    } else if exp == 0 && frac == 0 {
        Some(sign)
    } else if 1009 <= exp && exp <= 1038 {
        if frac & 0x3ff_ffff_ffffu64 != 0 {
            None
        } else {
            Some(sign | (((exp - 1008) as u16) << 10u16) | ((frac >> 42u64) as u16))
        }
    } else if 999 <= exp && exp <= 1008 {
        let mantissa = 0x0010_0000_0000_0000u64 | frac;
        let shift = 1051 - exp;
        assert(43 <= shift && shift <= 52 ==> (1u64 << shift) >= 1) by (bit_vector);
        if mantissa & ((1u64 << shift) - 1) != 0 {
            None
        } else {
            Some(sign | ((mantissa >> shift) as u16))
        }
    } else {
        None
    }
}

/// Computes the binary32 candidate of a binary64 pattern.
fn candidate32_exec(b: u64) -> (r: Option<u32>)
    ensures
        r == candidate32(b),
{
    let sign = ((b >> 32u64) & 0x8000_0000u64) as u32;
    let exp = (b >> 52u64) & 0x7ffu64;
    let frac = b & 0x000f_ffff_ffff_ffffu64;
    if exp == 0x7ff {
        if frac & 0x1fff_ffffu64 != 0 {
            None
        } else {
            Some(sign | 0x7f80_0000u32 | ((frac >> 29u64) as u32))
        }
    } else if exp == 0 && frac == 0 {
        Some(sign)
    } else if 897 <= exp && exp <= 1150 {
        if frac & 0x1fff_ffffu64 != 0 {
            None
        } else {
            Some(sign | (((exp - 896) as u32) << 23u32) | ((frac >> 29u64) as u32))
        }
    } else if 874 <= exp && exp <= 896 {
        let mantissa = 0x0010_0000_0000_0000u64 | frac;
        let shift = 926 - exp;
        assert(30 <= shift && shift <= 52 ==> (1u64 << shift) >= 1) by (bit_vector);
        if mantissa & ((1u64 << shift) - 1) != 0 {
            None
        } else {
            Some(sign | ((mantissa >> shift) as u32))
        }
    } else {
        None
    }
}

/// Converts double-precision bits to half-precision bits if (and only if)
/// the conversion is lossless, including the sign, signaling bit and
/// payload of NaNs.
pub fn f64_to_f16_bits(b: u64) -> (r: Option<u16>)
    ensures
        r == narrow16(b),
        r matches Some(h) ==> widen16(h) == b,
        r is None ==> forall|h: u16| widen16(h) != b,
{
    proof {
        lemma_narrow16_complete(b);
    }
    match candidate16_exec(b) {
        Some(half) => {
            // Only report success on an exact bit-level round trip.
            if f16_to_f64_bits(half) == b {
                Some(half)
            } else {
                None
            }
        },
        None => None,
    }
}

/// Converts double-precision bits to single-precision bits if (and only
/// if) the conversion is lossless, NaN payloads included.
pub fn f64_to_f32_bits(b: u64) -> (r: Option<u32>)
    ensures
        r == narrow32(b),
        r matches Some(s) ==> widen32(s) == b,
        r is None ==> forall|s: u32| widen32(s) != b,
{
    proof {
        lemma_narrow32_complete(b);
    }
    match candidate32_exec(b) {
        Some(single) => {
            if f32_to_f64_bits(single) == b {
                Some(single)
            } else {
                None
            }
        },
        None => None,
    }
}

/// Every binary16 pattern survives widening to binary64 and narrowing back.
pub proof fn lemma_f16_roundtrip(h: u16)
    ensures
        narrow16(widen16(h)) == Some(h),
{
    let b = widen16(h);
    let sign = ((h >> 15u16) as u64) << 63u64;
    let exp = ((h >> 10u16) & 0x1fu16) as u64;
    let frac = (h & 0x3ffu16) as u64;
    let m = frac_mask();
    assert(h & 0x3ffu16 <= 0x3ffu16) by (bit_vector);
    if exp == 31 {
        assert(b == sign | 0x7ff0_0000_0000_0000u64 | (frac << 42u64));
        assert({
            &&& (b >> 52u64) & 0x7ffu64 == 0x7ffu64
            &&& (b & m) & 0x3ff_ffff_ffffu64 == 0
            &&& (((b >> 48u64) & 0x8000u64) as u16) | 0x7c00u16 | (((b & m) >> 42u64) as u16) == h
        }) by (bit_vector)
            requires
                exp == ((h >> 10u16) & 0x1fu16) as u64,
                exp == 31,
                frac == (h & 0x3ffu16) as u64,
                sign == ((h >> 15u16) as u64) << 63u64,
                m == 0x000f_ffff_ffff_ffffu64,
                b == sign | 0x7ff0_0000_0000_0000u64 | (frac << 42u64),
        ;
        assert(candidate16(b) == Some(h));
    } else if exp == 0 {
        if frac == 0 {
            assert(b == sign);
            assert({
                &&& (b >> 52u64) & 0x7ffu64 == 0
                &&& b & m == 0
                &&& (((b >> 48u64) & 0x8000u64) as u16) == h
            }) by (bit_vector)
                requires
                    exp == ((h >> 10u16) & 0x1fu16) as u64,
                    exp == 0,
                    frac == (h & 0x3ffu16) as u64,
                    frac == 0,
                    sign == ((h >> 15u16) as u64) << 63u64,
                    m == 0x000f_ffff_ffff_ffffu64,
                    b == sign,
            ;
            assert(candidate16(b) == Some(h));
        } else {
            lemma_top_bit(frac);
            let p = top_bit(frac);
            assert(frac < 1024 && (frac >> p) == 1 && p < 64 ==> p <= 9) by (bit_vector);
            assert(b == sign | (((p + 999) as u64) << 52u64) | ((frac << ((52 - p) as u64)) & m));
            let e = (b >> 52u64) & 0x7ffu64;
            let mantissa = 0x0010_0000_0000_0000u64 | (b & m);
            assert({
                &&& e == p + 999
                &&& mantissa & (((1u64 << ((1051 - e) as u64)) - 1) as u64) == 0
                &&& (((b >> 48u64) & 0x8000u64) as u16) | ((mantissa >> ((1051 - e) as u64)) as u16) == h
            }) by (bit_vector)
                requires
                    exp == ((h >> 10u16) & 0x1fu16) as u64,
                    exp == 0,
                    frac == (h & 0x3ffu16) as u64,
                    p <= 9,
                    (frac >> p) == 1,
                    sign == ((h >> 15u16) as u64) << 63u64,
                    m == 0x000f_ffff_ffff_ffffu64,
                    b == sign | (((p + 999) as u64) << 52u64) | ((frac << ((52 - p) as u64)) & m),
                    e == (b >> 52u64) & 0x7ffu64,
                    mantissa == 0x0010_0000_0000_0000u64 | (b & m),
            ;
            assert(candidate16(b) == Some(h));
        }
    } else {
        assert(b == sign | (((exp + 1008) as u64) << 52u64) | (frac << 42u64));
        let e = (b >> 52u64) & 0x7ffu64;
        assert({
            &&& e == exp + 1008
            &&& 1009 <= e && e <= 1038
            &&& (b & m) & 0x3ff_ffff_ffffu64 == 0
            &&& (((b >> 48u64) & 0x8000u64) as u16) | (((e - 1008) as u16) << 10u16) | (((b & m) >> 42u64) as u16) == h
        }) by (bit_vector)
            requires
                exp == ((h >> 10u16) & 0x1fu16) as u64,
                exp != 0,
                exp != 31,
                frac == (h & 0x3ffu16) as u64,
                sign == ((h >> 15u16) as u64) << 63u64,
                m == 0x000f_ffff_ffff_ffffu64,
                b == sign | (((exp + 1008) as u64) << 52u64) | (frac << 42u64),
                e == (b >> 52u64) & 0x7ffu64,
        ;
        assert(candidate16(b) == Some(h));
    }
}

/// Every binary32 pattern survives widening to binary64 and narrowing back.
pub proof fn lemma_f32_roundtrip(s: u32)
    ensures
        narrow32(widen32(s)) == Some(s),
{
    let b = widen32(s);
    let sign = ((s >> 31u32) as u64) << 63u64;
    let exp = ((s >> 23u32) & 0xffu32) as u64;
    let frac = (s & 0x7f_ffffu32) as u64;
    let m = frac_mask();
    assert(s & 0x7f_ffffu32 <= 0x7f_ffffu32) by (bit_vector);
    if exp == 255 {
        assert(b == sign | 0x7ff0_0000_0000_0000u64 | (frac << 29u64));
        assert({
            &&& (b >> 52u64) & 0x7ffu64 == 0x7ffu64
            &&& (b & m) & 0x1fff_ffffu64 == 0
            &&& (((b >> 32u64) & 0x8000_0000u64) as u32) | 0x7f80_0000u32 | (((b & m) >> 29u64) as u32) == s
        }) by (bit_vector)
            requires
                exp == ((s >> 23u32) & 0xffu32) as u64,
                exp == 255,
                frac == (s & 0x7f_ffffu32) as u64,
                sign == ((s >> 31u32) as u64) << 63u64,
                m == 0x000f_ffff_ffff_ffffu64,
                b == sign | 0x7ff0_0000_0000_0000u64 | (frac << 29u64),
        ;
    } else if exp == 0 {
        if frac == 0 {
            assert(b == sign);
            assert({
                &&& (b >> 52u64) & 0x7ffu64 == 0
                &&& b & m == 0
                &&& (((b >> 32u64) & 0x8000_0000u64) as u32) == s
            }) by (bit_vector)
                requires
                    exp == ((s >> 23u32) & 0xffu32) as u64,
                    exp == 0,
                    frac == (s & 0x7f_ffffu32) as u64,
                    frac == 0,
                    sign == ((s >> 31u32) as u64) << 63u64,
                    m == 0x000f_ffff_ffff_ffffu64,
                    b == sign,
            ;
        } else {
            lemma_top_bit(frac);
            let p = top_bit(frac);
            assert(frac < 0x80_0000 && (frac >> p) == 1 && p < 64 ==> p <= 22) by (bit_vector);
            assert(b == sign | (((p + 874) as u64) << 52u64) | ((frac << ((52 - p) as u64)) & m));
            let e = (b >> 52u64) & 0x7ffu64;
            let mantissa = 0x0010_0000_0000_0000u64 | (b & m);
            assert({
                &&& e == p + 874
                &&& mantissa & (((1u64 << ((926 - e) as u64)) - 1) as u64) == 0
                &&& (((b >> 32u64) & 0x8000_0000u64) as u32) | ((mantissa >> ((926 - e) as u64)) as u32) == s
            }) by (bit_vector)
                requires
                    exp == ((s >> 23u32) & 0xffu32) as u64,
                    exp == 0,
                    frac == (s & 0x7f_ffffu32) as u64,
                    p <= 22,
                    (frac >> p) == 1,
                    sign == ((s >> 31u32) as u64) << 63u64,
                    m == 0x000f_ffff_ffff_ffffu64,
                    b == sign | (((p + 874) as u64) << 52u64) | ((frac << ((52 - p) as u64)) & m),
                    e == (b >> 52u64) & 0x7ffu64,
                    mantissa == 0x0010_0000_0000_0000u64 | (b & m),
            ;
        }
    } else {
        assert(b == sign | (((exp + 896) as u64) << 52u64) | (frac << 29u64));
        let e = (b >> 52u64) & 0x7ffu64;
        assert({
            &&& e == exp + 896
            &&& 897 <= e && e <= 1150
            &&& (b & m) & 0x1fff_ffffu64 == 0
            &&& (((b >> 32u64) & 0x8000_0000u64) as u32) | (((e - 896) as u32) << 23u32) | (((b & m) >> 29u64) as u32) == s
        }) by (bit_vector)
            requires
                exp == ((s >> 23u32) & 0xffu32) as u64,
                exp != 0,
                exp != 255,
                frac == (s & 0x7f_ffffu32) as u64,
                sign == ((s >> 31u32) as u64) << 63u64,
                m == 0x000f_ffff_ffff_ffffu64,
                b == sign | (((exp + 896) as u64) << 52u64) | (frac << 29u64),
                e == (b >> 52u64) & 0x7ffu64,
        ;
    }
}

/// Narrowing to binary16 succeeds exactly on the widenings of binary16
/// patterns, and gives back that pattern.
pub proof fn lemma_narrow16_complete(b: u64)
    ensures
        narrow16(b) matches Some(h) ==> widen16(h) == b,
        narrow16(b) is None ==> forall|h: u16| widen16(h) != b,
{
    assert forall|h: u16| widen16(h) == b implies narrow16(b) == Some(h) by {
        lemma_f16_roundtrip(h);
    }
}

/// Narrowing to binary32 succeeds exactly on the widenings of binary32
/// patterns, and gives back that pattern.
pub proof fn lemma_narrow32_complete(b: u64)
    ensures
        narrow32(b) matches Some(s) ==> widen32(s) == b,
        narrow32(b) is None ==> forall|s: u32| widen32(s) != b,
{
    assert forall|s: u32| widen32(s) == b implies narrow32(b) == Some(s) by {
        lemma_f32_roundtrip(s);
    }
}

} // verus!
