//! IEEE-754 double values read from their bit patterns.

use vstd::prelude::*;
use vstd::arithmetic::power2::{
    pow2,
    lemma2_to64,
    lemma2_to64_rest,
    lemma_pow2_adds,
    lemma_pow2_strictly_increases,
    lemma_pow2_unfold,
};

verus! {

/// The biased exponent field of a double.
pub open spec fn exponent_field(bits: u64) -> nat {
    ((bits as nat / 0x10_0000_0000_0000) % 2048) as nat
}

/// The fraction field of a double.
pub open spec fn fraction_field(bits: u64) -> nat {
    (bits as nat % 0x10_0000_0000_0000) as nat
}

/// The sign bit of a double.
pub open spec fn sign_negative(bits: u64) -> bool {
    bits >= 0x8000_0000_0000_0000
}

/// The double is not a number.
pub open spec fn is_nan(bits: u64) -> bool {
    exponent_field(bits) == 2047 && fraction_field(bits) != 0
}

/// The double is an infinity.
pub open spec fn is_infinite(bits: u64) -> bool {
    exponent_field(bits) == 2047 && fraction_field(bits) == 0
}

/// The integer part of the magnitude of a finite double.
pub open spec fn trunc_magnitude(bits: u64) -> nat {
    let e = exponent_field(bits);
    if e == 0 {
        // Subnormal values are below one.
        0
    } else {
        let m = fraction_field(bits) + 0x10_0000_0000_0000;
        if e >= 1075 {
            m * pow2((e - 1075) as nat)
        } else {
            m / pow2((1075 - e) as nat)
        }
    }
}

/// A double converted to an integer type with bounds `lo..=hi` as Rust's `as`
/// does: toward zero, saturating at the bounds, and `NaN` as zero.
pub open spec fn saturating_trunc(bits: u64, lo: int, hi: int) -> int {
    if is_nan(bits) {
        0
    } else if is_infinite(bits) {
        if sign_negative(bits) {
            lo
        } else {
            hi
        }
    } else {
        let t = if sign_negative(bits) {
            -(trunc_magnitude(bits) as int)
        } else {
            trunc_magnitude(bits) as int
        };
        if t < lo {
            lo
        } else if t > hi {
            hi
        } else {
            t
        }
    }
}

/// Concrete powers of two used by the bounds below.
proof fn lemma_pow2_values()
    ensures
        pow2(0) == 1,
        pow2(52) == 0x10_0000_0000_0000,
        pow2(53) == 0x20_0000_0000_0000,
        pow2(64) == 0x1_0000_0000_0000_0000,
        pow2(73) == 0x200_0000_0000_0000_0000,
        pow2(74) == 0x400_0000_0000_0000_0000,
        pow2(75) == 0x800_0000_0000_0000_0000,
        pow2(127) == 0x8000_0000_0000_0000_0000_0000_0000_0000,
{
    lemma2_to64();
    lemma2_to64_rest();
    lemma_pow2_adds(64, 9);
    lemma_pow2_adds(64, 10);
    lemma_pow2_adds(64, 11);
    lemma_pow2_adds(32, 31);
    lemma_pow2_adds(64, 63);
}

/// The magnitude truncated toward zero, or `None` when it is at least
/// `2^127`.
pub fn trunc_magnitude_below_2_127(bits: u64) -> (r: Option<u128>)
    requires
        !is_nan(bits) && !is_infinite(bits),
    ensures
        match r {
            Some(v) => v == trunc_magnitude(bits) && v < pow2(127),
            None => trunc_magnitude(bits) >= pow2(127),
        },
{
    let e = bits / 0x10_0000_0000_0000 % 2048;
    let f = bits % 0x10_0000_0000_0000;
    proof {
        lemma_pow2_values();
    }
    if e == 0 {
        return Some(0);
    }
    let m: u64 = f + 0x10_0000_0000_0000;
    if e >= 1075 {
        let shift = e - 1075;
        if shift > 74 {
            proof {
                if shift > 75 {
                    lemma_pow2_strictly_increases(75, shift as nat);
                }
                assert(m * pow2(shift as nat) >= 0x10_0000_0000_0000 * pow2(75)) by (nonlinear_arith)
                    requires
                        m >= 0x10_0000_0000_0000,
                        pow2(shift as nat) >= pow2(75),
                ;
            }
            return None;
        }
        let mut v: u128 = m as u128;
        let mut k: u64 = 0;
        while k < shift
            invariant
                k <= shift <= 74,
                m < 0x20_0000_0000_0000,
                v == m * pow2(k as nat),
                pow2(73) == 0x200_0000_0000_0000_0000,
            decreases shift - k,
        {
            proof {
                if k < 73 {
                    lemma_pow2_strictly_increases(k as nat, 73);
                }
                assert(m * pow2(k as nat) <= 0x20_0000_0000_0000 * pow2(73)) by (nonlinear_arith)
                    requires
                        m < 0x20_0000_0000_0000,
                        pow2(k as nat) <= pow2(73),
                ;
                lemma_pow2_unfold((k + 1) as nat);
                assert(m * pow2((k + 1) as nat) == 2 * (m * pow2(k as nat))) by (nonlinear_arith)
                    requires
                        pow2((k + 1) as nat) == 2 * pow2(k as nat),
                ;
            }
            v = v * 2;
            k += 1;
        }
        if v >= 0x8000_0000_0000_0000_0000_0000_0000_0000 {
            return None;
        }
        Some(v)
    } else {
        let shift = 1075 - e;
        if shift >= 64 {
            proof {
                lemma_pow2_strictly_increases(53, shift as nat);
                vstd::arithmetic::div_mod::lemma_basic_div(m as int, pow2(shift as nat) as int);
            }
            return Some(0);
        }
        proof {
            vstd::bits::lemma_u64_shr_is_div(m, shift);
        }
        Some((m >> shift) as u128)
    }
}

/// The double `bits` as Rust's `as i128` converts it.
pub fn trunc_to_i128(bits: u64) -> (r: i128)
    ensures
        r as int == saturating_trunc(bits, i128::MIN as int, i128::MAX as int),
{
    let e = bits / 0x10_0000_0000_0000 % 2048;
    let f = bits % 0x10_0000_0000_0000;
    let negative = bits >= 0x8000_0000_0000_0000;
    proof {
        lemma_pow2_values();
    }
    if e == 2047 {
        if f != 0 {
            return 0;
        }
        return if negative {
            i128::MIN
        } else {
            i128::MAX
        };
    }
    match trunc_magnitude_below_2_127(bits) {
        None => if negative {
            i128::MIN
        } else {
            i128::MAX
        },
        Some(v) => if negative {
            0 - (v as i128)
        } else {
            v as i128
        },
    }
}

/// The double `bits` as Rust's `as i64` converts it.
pub fn trunc_to_i64(bits: u64) -> (r: i64)
    ensures
        r as int == saturating_trunc(bits, i64::MIN as int, i64::MAX as int),
{
    let wide = trunc_to_i128(bits);
    proof {
        lemma_pow2_values();
    }
    if wide < i64::MIN as i128 {
        i64::MIN
    } else if wide > i64::MAX as i128 {
        i64::MAX
    } else {
        wide as i64
    }
}

} // verus!
