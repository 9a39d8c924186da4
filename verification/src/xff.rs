//! Comparing a sample count against the sufficiency threshold.
//!
//! The header stores the threshold (the "x-files factor") as an IEEE-754
//! single.  The downsampling cascade needs exactly one question answered:
//! is `surviving / needed` below that threshold?  The comparison of a
//! rational with a binary float is exact integer arithmetic on the float's
//! bit fields, so it is done here in verified code, against a
//! specification that spells out what a single-precision bit pattern
//! denotes: sign `s`, exponent `e`, fraction `f`, and a magnitude of
//! `m * 2^(e - 150)` with `m = 2^23 + f` when normal (`0 < e < 255`) and
//! `f * 2^(-149)` when subnormal (`e == 0`).  A comparison with a NaN
//! (`e == 255`, `f != 0`) is false, as IEEE-754 has it.

use vstd::prelude::*;

use vstd::arithmetic::power2::{
    pow2, lemma2_to64, lemma2_to64_rest, lemma_pow2_strictly_increases,
};
use vstd::arithmetic::mul::{
    lemma_mul_inequality, lemma_mul_strictly_positive, lemma_mul_upper_bound,
};

verus! {

/// Sign bit of a single-precision pattern.
pub open spec fn spec_xff_sign(bits: u32) -> int {
    bits as int / 0x8000_0000
}

/// Biased exponent field of a single-precision pattern.
pub open spec fn spec_xff_exp(bits: u32) -> int {
    (bits as int / 0x80_0000) % 256
}

/// Fraction field of a single-precision pattern.
pub open spec fn spec_xff_frac(bits: u32) -> int {
    bits as int % 0x80_0000
}

/// Whether the nonnegative rational `n / d` is strictly below the value
/// the single-precision pattern `bits` denotes.  False when `bits` is a
/// NaN or at most zero; true when it is positive infinity.
pub open spec fn spec_frac_lt_xff(n: int, d: int, bits: u32) -> bool
    recommends
        0 <= n,
        0 < d,
{
    let s = spec_xff_sign(bits);
    let e = spec_xff_exp(bits);
    let f = spec_xff_frac(bits);
    if e == 255 {
        f == 0 && s == 0
    } else if s == 1 {
        false
    } else {
        let m = if e == 0 {
            f
        } else {
            0x80_0000 + f
        };
        if e >= 150 {
            n < m * d * pow2((e - 150) as nat)
        } else {
            n * pow2((150 - e) as nat) < m * d
        }
    }
}

/// 2^p for small exponents, as executable code.
fn pow2_u64(p: u64) -> (r: u64)
    requires
        p <= 63,
    ensures
        r == pow2(p as nat),
{
    let mut r: u64 = 1;
    let mut i: u64 = 0;
    proof {
        lemma2_to64();
        lemma2_to64_rest();
    }
    while i < p
        invariant
            i <= p <= 63,
            r == pow2(i as nat),
            pow2(63) == 0x8000_0000_0000_0000,
        decreases p - i,
    {
        proof {
            if i < 63 {
                lemma_pow2_strictly_increases(i as nat, 63);
            }
            assert(pow2((i + 1) as nat) == 2 * pow2(i as nat)) by {
                vstd::arithmetic::power2::lemma_pow2_unfold((i + 1) as nat);
            }
        }
        r = r * 2;
        i = i + 1;
    }
    r
}

/// Decides `n / d < threshold`, where `threshold` is the raw bit pattern
/// of an IEEE-754 single, exactly: this is the downsampling sufficiency
/// gate, with `n` surviving samples out of `d` needed.
pub fn fraction_lt_xff(n: u32, d: u32, bits: u32) -> (r: bool)
    requires
        d > 0,
    ensures
        r == spec_frac_lt_xff(n as int, d as int, bits),
{
    let s = bits / 0x8000_0000;
    let e = (bits / 0x80_0000) % 256;
    let f = bits % 0x80_0000;
    if e == 255 {
        let r = f == 0 && s == 0;
        proof {
            assert(r == spec_frac_lt_xff(n as int, d as int, bits));
        }
        r
    } else if s == 1 {
        proof {
            assert(!spec_frac_lt_xff(n as int, d as int, bits));
        }
        false
    } else {
        let m: u64 = if e == 0 {
            f as u64
        } else {
            0x80_0000u64 + f as u64
        };
        proof {
            lemma2_to64();
            lemma2_to64_rest();
        }
        if e >= 150 {
            let p = (e - 150) as u64;
            let ghost pw = pow2(p as nat);
            if p >= 64 {
                // m*d*2^p >= 2^23 * 1 * 2^64, far above any u32 count.
                proof {
                    if p > 64 {
                        lemma_pow2_strictly_increases(64, p as nat);
                    }
                    assert(m * d >= m * 1) by {
                        lemma_mul_inequality(1, d as int, m as int);
                        vstd::arithmetic::mul::lemma_mul_is_commutative(m as int, d as int);
                    }
                    assert(m * d * pw >= 1 * pw) by {
                        lemma_mul_inequality(1, (m * d) as int, pw as int);
                    }
                    assert(pw >= 0x1_0000_0000_0000_0000);
                    assert(n < m * d * pow2((e - 150) as nat));
                    assert(spec_frac_lt_xff(n as int, d as int, bits));
                }
                true
            } else {
                let pe = pow2_u64(p);
                proof {
                    assert(pw <= pow2(63)) by {
                        if p < 63 {
                            lemma_pow2_strictly_increases(p as nat, 63);
                        }
                    }
                    lemma_mul_upper_bound(m as int, 0xFF_FFFF, d as int, 0xFFFF_FFFF);
                    lemma_mul_upper_bound(
                        (m as int) * (d as int),
                        0xFF_FFFE_FF00_0001,
                        pw as int,
                        0x8000_0000_0000_0000,
                    );
                }
                let rhs: u128 = (m as u128) * (d as u128) * (pe as u128);
                proof {
                    assert(rhs == (m as int) * (d as int) * (pw as int));
                    assert(pw == pow2((e - 150) as nat));
                }
                (n as u128) < rhs
            }
        } else {
            let q = (150 - e) as u64;
            if n == 0 {
                // 0 < m * d exactly when the threshold's magnitude is
                // nonzero.
                proof {
                    if m > 0 {
                        lemma_mul_strictly_positive(m as int, d as int);
                    }
                }
                proof {
                    assert((m > 0) == spec_frac_lt_xff(n as int, d as int, bits));
                }
                m > 0
            } else if q >= 56 {
                // n * 2^q >= 2^56 > m * d: the fraction cannot be below
                // so small a threshold.
                proof {
                    if q > 56 {
                        lemma_pow2_strictly_increases(56, q as nat);
                    }
                    assert(n * pow2(q as nat) >= 1 * pow2(q as nat)) by {
                        lemma_mul_inequality(1, n as int, pow2(q as nat) as int);
                    }
                    lemma_mul_upper_bound(m as int, 0xFF_FFFF, d as int, 0xFFFF_FFFF);
                }
                proof {
                    assert(!spec_frac_lt_xff(n as int, d as int, bits));
                }
                false
            } else {
                let qe = pow2_u64(q);
                proof {
                    assert(pow2(q as nat) <= pow2(55)) by {
                        if q < 55 {
                            lemma_pow2_strictly_increases(q as nat, 55);
                        }
                    }
                    lemma_mul_upper_bound(
                        n as int,
                        0xFFFF_FFFF,
                        pow2(q as nat) as int,
                        0x80_0000_0000_0000,
                    );
                    lemma_mul_upper_bound(m as int, 0xFF_FFFF, d as int, 0xFFFF_FFFF);
                }
                let lhs: u128 = (n as u128) * (qe as u128);
                let rhs: u128 = (m as u128) * (d as u128);
                proof {
                    assert((lhs < rhs) == spec_frac_lt_xff(n as int, d as int, bits));
                }
                lhs < rhs
            }
        }
    }
}

} // verus!
