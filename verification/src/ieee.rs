//! IEEE 754 bit-pattern arithmetic.
//!
//! The value model stores its 32-bit and 64-bit floating-point payloads as
//! raw IEEE 754 bit patterns (`u32`/`u64`), so the codecs and the equality
//! rules never compute with floating point: equality and the widening of a
//! 32-bit payload to a 64-bit one are defined here as integer functions of
//! the bit patterns.
use vstd::prelude::*;

verus! {

/// A binary32 pattern is a NaN: exponent all ones, fraction non-zero.
pub open spec fn is_nan32(b: u32) -> bool {
    (b >> 23) & 0xff == 0xff && b & 0x007f_ffff != 0
}

/// A binary64 pattern is a NaN: exponent all ones, fraction non-zero.
pub open spec fn is_nan64(b: u64) -> bool {
    (b >> 52) & 0x7ff == 0x7ff && b & 0x000f_ffff_ffff_ffff != 0
}

/// A binary32 pattern is a zero of either sign.
pub open spec fn is_zero32(b: u32) -> bool {
    b & 0x7fff_ffff == 0
}

/// A binary64 pattern is a zero of either sign.
pub open spec fn is_zero64(b: u64) -> bool {
    b & 0x7fff_ffff_ffff_ffff == 0
}

/// IEEE 754 equality on binary32 bit patterns: NaN equals nothing, the two
/// zeroes equal each other, every other value equals only its own pattern.
pub open spec fn eq32(a: u32, b: u32) -> bool {
    !is_nan32(a) && !is_nan32(b) && (a == b || (is_zero32(a) && is_zero32(b)))
}

/// IEEE 754 equality on binary64 bit patterns.
pub open spec fn eq64(a: u64, b: u64) -> bool {
    !is_nan64(a) && !is_nan64(b) && (a == b || (is_zero64(a) && is_zero64(b)))
}

/// Executable IEEE equality test on binary32 patterns.
pub fn eq32_exec(a: u32, b: u32) -> (r: bool)
    ensures
        r == eq32(a, b),
{
    let a_nan = (a >> 23) & 0xff == 0xff && a & 0x007f_ffff != 0;
    let b_nan = (b >> 23) & 0xff == 0xff && b & 0x007f_ffff != 0;
    !a_nan && !b_nan && (a == b || (a & 0x7fff_ffff == 0 && b & 0x7fff_ffff == 0))
}

/// Executable IEEE equality test on binary64 patterns.
pub fn eq64_exec(a: u64, b: u64) -> (r: bool)
    ensures
        r == eq64(a, b),
{
    let a_nan = (a >> 52) & 0x7ff == 0x7ff && a & 0x000f_ffff_ffff_ffff != 0;
    let b_nan = (b >> 52) & 0x7ff == 0x7ff && b & 0x000f_ffff_ffff_ffff != 0;
    !a_nan && !b_nan && (a == b || (a & 0x7fff_ffff_ffff_ffff == 0 && b
        & 0x7fff_ffff_ffff_ffff == 0))
}

/// Normalizing shift for a subnormal binary32 fraction: how many doublings
/// bring bit 23 up, for `0 < m < 0x0080_0000`.
pub open spec fn norm_shift(m: u32, fuel: nat) -> nat
    decreases fuel,
{
    if m & 0x0080_0000 != 0 || fuel == 0 {
        0
    } else {
        1 + norm_shift((m << 1) as u32, (fuel - 1) as nat)
    }
}

/// The binary64 pattern that denotes the same extended-real value as the
/// binary32 pattern `b` (the widening conversion). NaN payloads keep their
/// fraction bits, shifted into the wider fraction field.
pub open spec fn widen_bits(b: u32) -> u64 {
    let sign = ((b >> 31) as u64) << 63;
    let e = (b >> 23) & 0xff;
    let f = b & 0x007f_ffff;
    if e == 0xff {
        // infinity or NaN
        sign | (0x7ffu64 << 52) | ((f as u64) << 29)
    } else if e == 0 {
        if f == 0 {
            // signed zero
            sign
        } else {
            // subnormal: value f * 2^-149; normalize into binary64's range
            let k = norm_shift(f, 24);
            let m = ((f << k) as u32) & 0x007f_ffff;
            sign | (((897 - k) as u64) << 52) | ((m as u64) << 29)
        }
    } else {
        // normal: rebias the exponent by 1023 - 127, widen the fraction
        sign | (((e + 896) as u64) << 52) | ((f as u64) << 29)
    }
}

/// Executable widening of a binary32 bit pattern to the binary64 pattern
/// of the same value.
pub fn widen_bits_exec(b: u32) -> (r: u64)
    ensures
        r == widen_bits(b),
{
    let sign: u64 = ((b >> 31) as u64) << 63;
    let e: u32 = (b >> 23) & 0xff;
    let f: u32 = b & 0x007f_ffff;
    proof {
        assert((b >> 23) & 0xff <= 0xff && b & 0x007f_ffff <= 0x007f_ffff) by (bit_vector);
    }
    if e == 0xff {
        sign | (0x7ffu64 << 52) | ((f as u64) << 29)
    } else if e == 0 {
        if f == 0 {
            sign
        } else {
            let mut m: u32 = f;
            let mut k: u32 = 0;
            proof {
                assert(f & 0x0080_0000 == 0 && (f << 0u32) as u32 == f) by (bit_vector)
                    requires
                        f == b & 0x007f_ffff,
                ;
            }
            while m & 0x0080_0000 == 0 && k < 24
                invariant
                    m == (f << k) as u32,
                    k <= 24,
                    norm_shift(f, 24) == if m & 0x0080_0000 != 0 || k == 24 {
                        k as nat
                    } else {
                        (k + norm_shift(m, (24 - k) as nat)) as nat
                    },
                decreases 24 - k,
            {
                proof {
                    assert(((f << k) << 1u32) as u32 == (f << (k + 1) as u32) as u32)
                        by (bit_vector)
                        requires
                            k < 24u32,
                    ;
                }
                m = m << 1;
                k = k + 1;
            }
            let kk: u32 = k;
            let mm: u32 = m & 0x007f_ffff;
            proof {
                assert(kk == norm_shift(f, 24));
                assert(kk <= 24);
            }
            sign | (((897 - kk) as u64) << 52) | ((mm as u64) << 29)
        }
    } else {
        sign | (((e + 896) as u64) << 52) | ((f as u64) << 29)
    }
}

} // verus!
