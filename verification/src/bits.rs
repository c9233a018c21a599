//! Exact IEEE 754 single-precision bit patterns for small integers.
//!
//! Synthetic time-series samples start at integer grid times, but a
//! [`crate::State`] carries its start time as a single-precision bit pattern
//! so that observed (fractional) timestamps round-trip exactly.  Every
//! non-negative integer below 2^24 is exactly representable in single
//! precision, and its bit pattern is pure integer arithmetic: for
//! `2^p <= n < 2^(p+1)` the pattern is the biased exponent `127 + p` in the
//! exponent field and the fraction `n * 2^(23-p) - 2^23` in the mantissa
//! field.  This module states that formula as a spec function and proves an
//! executable conversion against it.

use vstd::arithmetic::div_mod::lemma_basic_div;
use vstd::arithmetic::div_mod::lemma_div_nonincreasing;
use vstd::arithmetic::div_mod::lemma_small_mod;
use vstd::prelude::*;

verus! {

/// `2^k`.
pub open spec fn two_pow(k: nat) -> nat
    decreases k,
{
    if k == 0 {
        1
    } else {
        2 * two_pow((k - 1) as nat)
    }
}

/// The floor of the base-2 logarithm (0 for `n <= 1`).
pub open spec fn floor_log2(n: nat) -> nat
    decreases n,
{
    if n <= 1 {
        0
    } else {
        1 + floor_log2(n / 2)
    }
}

/// The IEEE 754 single-precision bit pattern of the non-negative integer
/// `n`, exact for `n < 2^24`.
///
/// For `n` with `2^p <= n < 2^(p+1)` the pattern is
/// `(127 + p) * 2^23 + (n * 2^(23-p) - 2^23)`, folded here into
/// `(126 + p) * 2^23 + n * 2^(23-p)`.
pub open spec fn single_bits_of(n: nat) -> nat {
    if n == 0 {
        0
    } else {
        let p = floor_log2(n);
        (126 + p) * 0x800000 + n * two_pow((23 - p) as nat)
    }
}

proof fn lemma_two_pow_monotone(a: nat, b: nat)
    requires
        a <= b,
    ensures
        two_pow(a) <= two_pow(b),
    decreases b,
{
    if a < b {
        lemma_two_pow_monotone(a, (b - 1) as nat);
    }
}

proof fn lemma_two_pow_adds(a: nat, b: nat)
    ensures
        two_pow(a) * two_pow(b) == two_pow(a + b),
    decreases a,
{
    if a == 0 {
        assert(two_pow(a) == 1);
        assert(two_pow(a) * two_pow(b) == two_pow(b)) by (nonlinear_arith)
            requires
                two_pow(a) == 1,
        ;
    } else {
        lemma_two_pow_adds((a - 1) as nat, b);
        assert(two_pow(a + b) == 2 * two_pow((a + b - 1) as nat));
        assert((a - 1) as nat + b == (a + b - 1) as nat);
        assert(two_pow(a) * two_pow(b) == 2 * (two_pow((a - 1) as nat) * two_pow(b)))
            by (nonlinear_arith)
            requires
                two_pow(a) == 2 * two_pow((a - 1) as nat),
        ;
        assert(two_pow(a) * two_pow(b) == 2 * two_pow((a + b - 1) as nat));
    }
}

proof fn lemma_floor_log2_from_bounds(n: nat, p: nat)
    requires
        two_pow(p) <= n,
        n < two_pow(p + 1),
    ensures
        floor_log2(n) == p,
    decreases p,
{
    if p == 0 {
        assert(n == 1);
    } else {
        assert(two_pow(p) == 2 * two_pow((p - 1) as nat));
        assert(two_pow(p + 1) == 2 * two_pow(p));
        assert(n >= 2);
        assert(two_pow((p - 1) as nat) <= n / 2);
        assert(n / 2 < two_pow(p));
        lemma_floor_log2_from_bounds(n / 2, (p - 1) as nat);
    }
}

/// Computes the IEEE 754 single-precision bit pattern of `n`.
///
/// The bound on `n` keeps the integer exactly representable in single
/// precision, so the formula of [`single_bits_of`] is the exact pattern.
pub fn single_bits_from_uint(n: u32) -> (r: u32)
    requires
        n < 0x1000000,
    ensures
        r == single_bits_of(n as nat),
{
    if n == 0 {
        return 0;
    }
    let mut p: u32 = 0;
    let mut pow: u32 = 1;
    let mut q: u32 = 0x800000;
    proof {
        assert(two_pow(23nat) == 0x800000) by {
            reveal_with_fuel(two_pow, 24);
        }
    }
    while pow * 2 <= n
        invariant
            0 < n < 0x1000000,
            p <= 23,
            pow == two_pow(p as nat),
            pow <= n,
            q == two_pow((23 - p) as nat),
        decreases n - pow,
    {
        proof {
            // 2 * pow <= n < 2^24 pins p + 1 <= 23.
            assert(two_pow((p + 1) as nat) == 2 * two_pow(p as nat));
            if p + 1 > 23 {
                lemma_two_pow_monotone(24, (p + 1) as nat);
                assert(two_pow(24nat) == 0x1000000) by {
                    reveal_with_fuel(two_pow, 25);
                }
                assert(false);
            }
            assert(two_pow((23 - p) as nat) == 2 * two_pow((23 - (p + 1)) as nat));
        }
        p = p + 1;
        pow = pow * 2;
        q = q / 2;
    }
    proof {
        assert(n < two_pow((p + 1) as nat));
        lemma_floor_log2_from_bounds(n as nat, p as nat);
        lemma_two_pow_adds((p + 1) as nat, (23 - p) as nat);
        assert(two_pow(24nat) == 0x1000000) by {
            reveal_with_fuel(two_pow, 25);
        }
        assert((n as nat) * two_pow((23 - p) as nat) < two_pow((p + 1) as nat) * two_pow(
            (23 - p) as nat,
        )) by (nonlinear_arith)
            requires
                (n as nat) < two_pow((p + 1) as nat),
                two_pow((23 - p) as nat) > 0,
        ;
        assert((pow as nat) * two_pow((23 - p) as nat) <= (n as nat) * two_pow((23 - p) as nat))
            by (nonlinear_arith)
            requires
                pow as nat <= n as nat,
        ;
        lemma_two_pow_adds(p as nat, (23 - p) as nat);
        assert(two_pow(23nat) == 0x800000) by {
            reveal_with_fuel(two_pow, 24);
        }
    }
    (126 + p) * 0x800000 + n * q
}

/// The sign field of a single-precision bit pattern.
pub open spec fn bits_sign(b: u32) -> u32 {
    b / 0x80000000
}

/// The biased exponent field of a single-precision bit pattern.
pub open spec fn bits_exp(b: u32) -> u32 {
    (b / 0x800000) % 0x100
}

/// The mantissa field of a single-precision bit pattern.
pub open spec fn bits_mantissa(b: u32) -> u32 {
    b % 0x800000
}

/// Whether a single-precision bit pattern carries a timestamp the pipeline
/// accepts: non-negative and finite, with a value below 2^24 (biased
/// exponent at most 150), so that every grid time it induces is exactly
/// representable.
pub open spec fn time_bits_ok(b: u32) -> bool {
    bits_sign(b) == 0 && bits_exp(b) <= 150
}

/// The integer significand of an accepted pattern: the represented value is
/// `bits_sig(b) / 2^bits_shift(b)`.  A zero biased exponent means a
/// subnormal value, `mantissa * 2^-149`; otherwise the hidden bit joins the
/// mantissa.
pub open spec fn bits_sig(b: u32) -> nat {
    if bits_exp(b) == 0 {
        bits_mantissa(b) as nat
    } else {
        (0x800000 + bits_mantissa(b)) as nat
    }
}

/// The binary scale of an accepted pattern (see [`bits_sig`]).
pub open spec fn bits_shift(b: u32) -> nat {
    if bits_exp(b) == 0 {
        149
    } else {
        (150 - bits_exp(b)) as nat
    }
}

/// The floor of the value represented by an accepted pattern.
pub open spec fn floor_of_bits(b: u32) -> nat {
    bits_sig(b) / two_pow(bits_shift(b))
}

/// The ceiling of the value represented by an accepted pattern.
pub open spec fn ceil_of_bits(b: u32) -> nat {
    if bits_sig(b) % two_pow(bits_shift(b)) == 0 {
        floor_of_bits(b)
    } else {
        floor_of_bits(b) + 1
    }
}

/// The value represented by an accepted pattern, rounded to the nearest
/// integer with halves away from zero: up by one exactly when the
/// fractional part is at least one half.
pub open spec fn round_of_bits(b: u32) -> nat {
    if 2 * (bits_sig(b) % two_pow(bits_shift(b))) >= two_pow(bits_shift(b)) {
        floor_of_bits(b) + 1
    } else {
        floor_of_bits(b)
    }
}

/// Computes the integer projections (round, ceiling) of the timestamp whose
/// single-precision bit pattern is `t_bits`, entirely in integer
/// arithmetic; `None` for a pattern the pipeline does not accept (negative,
/// not finite, or at least 2^24).
///
/// A shift beyond 25 is capped: the significand stays below 2^24, so the
/// floor is 0, the remainder is the whole significand, and the fraction is
/// below one half, exactly as with the full shift.
pub fn timestamp_projections(t_bits: u32) -> (r: Option<(u32, u32)>)
    ensures
        match r {
            Some(p) => time_bits_ok(t_bits) && p.0 == round_of_bits(t_bits) && p.1 == ceil_of_bits(
                t_bits,
            ) && p.0 <= 0x1000000 && p.1 <= 0x1000000,
            None => !time_bits_ok(t_bits),
        },
{
    let sign = t_bits / 0x80000000;
    let exp = (t_bits / 0x800000) % 0x100;
    if sign != 0 || exp > 150 {
        return None;
    }
    let m = t_bits % 0x800000;
    let sig: u64 = if exp == 0 {
        m as u64
    } else {
        0x800000 + m as u64
    };
    let shift: u32 = if exp == 0 {
        149
    } else {
        150 - exp
    };
    let sc: u32 = if shift > 25 {
        25
    } else {
        shift
    };
    let mut p2: u64 = 1;
    let mut k: u32 = 0;
    while k < sc
        invariant
            k <= sc,
            sc <= 25,
            p2 == two_pow(k as nat),
        decreases sc - k,
    {
        proof {
            lemma_two_pow_monotone(k as nat, 24);
            assert(two_pow(24nat) == 0x1000000) by {
                reveal_with_fuel(two_pow, 25);
            }
        }
        p2 = p2 * 2;
        k = k + 1;
    }
    proof {
        lemma_two_pow_monotone(0, sc as nat);
        lemma_two_pow_monotone(sc as nat, 25);
        assert(two_pow(25nat) == 0x2000000) by {
            reveal_with_fuel(two_pow, 26);
        }
    }
    let fl: u64 = sig / p2;
    let rem: u64 = sig % p2;
    let ce: u64 = if rem != 0 {
        fl + 1
    } else {
        fl
    };
    let rd: u64 = if rem * 2 >= p2 {
        fl + 1
    } else {
        fl
    };
    proof {
        assert(sig == bits_sig(t_bits));
        assert(shift as nat == bits_shift(t_bits));
        lemma_div_nonincreasing(sig as int, p2 as int);
        if shift > 25 {
            // Both divisors exceed the significand, so the capped and the
            // full shift agree on floor, remainder and fraction.
            assert(two_pow(25nat) == 0x2000000) by {
                reveal_with_fuel(two_pow, 26);
            }
            lemma_two_pow_monotone(26, shift as nat);
            assert(two_pow(26nat) == 0x4000000) by {
                reveal_with_fuel(two_pow, 27);
            }
            let d = two_pow(shift as nat);
            assert(d >= 0x4000000);
            lemma_basic_div(sig as int, d as int);
            lemma_small_mod(sig as nat, d);
            lemma_basic_div(sig as int, p2 as int);
            lemma_small_mod(sig as nat, p2 as nat);
        }
    }
    Some((rd as u32, ce as u32))
}

} // verus!
