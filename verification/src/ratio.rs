use vstd::prelude::*;
use vstd::arithmetic::div_mod::{
    lemma_basic_div, lemma_div_pos_is_pos, lemma_fundamental_div_mod,
    lemma_mod_division_less_than_divisor, lemma_mod_multiples_basic,
};

verus! {

/// The largest denominator a `Ratio` may carry.  Keeping denominators below
/// `2^32` leaves enough headroom to run every intermediate rounding
/// computation in 128-bit integers without overflow.
pub const MAX_DEN: u64 = 0x1_0000_0000;

/// Magnitudes handled by the rounding core stay below `2^120`, so that the
/// intermediate `2 * a + den * step` always fits in a `u128`.
pub const MAG_LIMIT: u128 = 0x100_0000_0000_0000_0000_0000_0000_0000;

/// An exact rational number `num / den`, used wherever the obfuscation logic
/// needs a value finer than an integer: noise samples, sensitivities and
/// privacy budgets.  The denominator is always positive, so the sign of the
/// value is the sign of `num`.
#[derive(Clone, Copy, Debug, PartialEq, Eq, Structural)]
pub struct Ratio {
    pub num: i64,
    pub den: u64,
}

impl Ratio {
    /// A well-formed ratio has a positive denominator small enough that
    /// all rounding arithmetic on it stays inside 128-bit integers.
    pub open spec fn wf(self) -> bool {
        1 <= self.den <= MAX_DEN
    }

    /// The rational `num / den`.
    pub fn new(num: i64, den: u64) -> (r: Ratio)
        requires
            1 <= den <= MAX_DEN,
        ensures
            r == (Ratio { num, den }),
            r.wf(),
    {
        Ratio { num, den }
    }

    /// The integer `n` as a ratio.
    pub fn from_int(n: i64) -> (r: Ratio)
        ensures
            r == (Ratio { num: n, den: 1u64 }),
            r.wf(),
    {
        Ratio { num: n, den: 1 }
    }
}

/// Rounding to the nearest integer, halves away from zero: the rounding mode
/// of the obfuscation pipeline.  `rhaz(num, den)` is `num / den` rounded this
/// way; it is only meaningful for `den >= 1`.
pub open spec fn rhaz(num: int, den: int) -> int {
    if num >= 0 {
        (2 * num + den) / (2 * den)
    } else {
        -((2 * (-num) + den) / (2 * den))
    }
}

/// Clamping a rounded multiple of `step` into `u64` without losing the
/// multiple-of-step guarantee: negatives become `0`, and overlarge values
/// become the largest multiple of the step that fits in `u64`, so the result
/// is a multiple of the step in every case.
pub open spec fn clamp_u64_multiple(x: int, step: int) -> int {
    if x < 0 {
        0
    } else if x > u64::MAX {
        ((u64::MAX as int) / step) * step
    } else {
        x
    }
}

/// Clamping an unbounded integer into `usize`.
pub open spec fn clamp_usize(x: int) -> int {
    if x < 0 {
        0
    } else if x > usize::MAX {
        usize::MAX as int
    } else {
        x
    }
}

/// `num / den` rounded to the nearest multiple of `step` (halves away from
/// zero), before any clamping: the mathematical content of the rounding
/// policy.
pub open spec fn round_to_multiple(num: int, den: int, step: int) -> int {
    rhaz(num, den * step) * step
}

/// Rounding to the nearest integer lands within half a unit of the exact
/// value: `|rhaz(num, den) - num/den| <= 1/2`, stated without division as
/// `|rhaz(num, den) * den - num| * 2 <= den`.
pub proof fn lemma_rhaz_close(num: int, den: int)
    requires
        den >= 1,
    ensures
        -den <= 2 * (rhaz(num, den) * den - num) <= den,
{
    let d2 = 2 * den;
    if num >= 0 {
        let x = 2 * num + den;
        let q = x / d2;
        let r = x % d2;
        lemma_fundamental_div_mod(x, d2);
        lemma_mod_division_less_than_divisor(x, d2);
        assert(2 * (q * den) == d2 * q) by (nonlinear_arith)
            requires
                d2 == 2 * den,
        ;
        assert(2 * (q * den - num) == den - r);
    } else {
        let m = -num;
        let x = 2 * m + den;
        let q = x / d2;
        let r = x % d2;
        lemma_fundamental_div_mod(x, d2);
        lemma_mod_division_less_than_divisor(x, d2);
        assert(2 * (q * den) == d2 * q) by (nonlinear_arith)
            requires
                d2 == 2 * den,
        ;
        assert((-q) * den == -(q * den)) by (nonlinear_arith);
        assert(2 * ((-q) * den - num) == r - den);
    }
}

/// The rounding policy really rounds to a multiple of the step, and lands
/// within half a step of the exact value: for `v = num / den`,
/// `round_to_multiple(num, den, step)` is a multiple of `step` with
/// `|round_to_multiple(num, den, step) - v| <= step / 2`, the distance again
/// stated multiplied through by `2 * den`.
pub proof fn lemma_round_to_multiple(num: int, den: int, step: int)
    requires
        den >= 1,
        step >= 1,
    ensures
        round_to_multiple(num, den, step) % step == 0,
        -(den * step) <= 2 * (round_to_multiple(num, den, step) * den - num) <= den * step,
{
    let ds = den * step;
    assert(den * step >= 1) by (nonlinear_arith)
        requires
            den >= 1,
            step >= 1,
    ;
    let q = rhaz(num, ds);
    lemma_rhaz_close(num, ds);
    lemma_mod_multiples_basic(q, step);
    assert((q * step) * den == q * ds) by (nonlinear_arith)
        requires
            ds == den * step,
    ;
}

/// The clamped rounding is total on `u64` and still yields a multiple of the
/// step on every input: rounding is the single point where a noisy value
/// becomes the reported integer, so nothing downstream has to repair it.
pub proof fn lemma_clamped_round_is_multiple(num: int, den: int, step: int)
    requires
        den >= 1,
        step >= 1,
    ensures
        0 <= clamp_u64_multiple(round_to_multiple(num, den, step), step) <= u64::MAX,
        clamp_u64_multiple(round_to_multiple(num, den, step), step) % step == 0,
{
    lemma_round_to_multiple(num, den, step);
    lemma_mod_multiples_basic(0, step);
    lemma_largest_multiple_fits(step);
}

/// The largest multiple of the step below `u64::MAX` is a well-placed
/// multiple of the step.
pub proof fn lemma_largest_multiple_fits(step: int)
    requires
        step >= 1,
    ensures
        0 <= ((u64::MAX as int) / step) * step <= u64::MAX,
        (((u64::MAX as int) / step) * step) % step == 0,
{
    let q = (u64::MAX as int) / step;
    lemma_fundamental_div_mod(u64::MAX as int, step);
    lemma_mod_division_less_than_divisor(u64::MAX as int, step);
    lemma_mod_multiples_basic(q, step);
    lemma_div_pos_is_pos(u64::MAX as int, step);
    assert(q * step == step * q) by (nonlinear_arith);
    assert(q * step >= 0) by (nonlinear_arith)
        requires
            q >= 0,
            step >= 1,
    ;
}

/// `rhaz` of a non-positive value is non-positive.
pub proof fn lemma_rhaz_nonpos(num: int, den: int)
    requires
        den >= 1,
        num <= 0,
    ensures
        rhaz(num, den) <= 0,
{
    if num >= 0 {
        lemma_basic_div(den, 2 * den);
    } else {
        lemma_div_pos_is_pos(2 * (-num) + den, 2 * den);
    }
}

/// Shared executable core of the rounding policy: the magnitude `a` (with
/// sign `neg`) over the denominator `den`, rounded to the nearest multiple of
/// `step` and clamped into `u64` as a multiple of the step.
pub(crate) fn rounded_multiple_mag(neg: bool, a: u128, den: u128, step: u128) -> (r: u64)
    requires
        1 <= den,
        1 <= step,
        step <= u64::MAX,
        a < MAG_LIMIT,
        den * step < MAG_LIMIT,
    ensures
        r == clamp_u64_multiple(
            round_to_multiple(if neg { -(a as int) } else { a as int }, den as int, step as int),
            step as int,
        ),
{
    let d: u128 = den * step;
    proof {
        assert(d >= 1) by (nonlinear_arith)
            requires
                den >= 1,
                step >= 1,
                d == den * step,
        ;
    }
    if neg {
        proof {
            lemma_rhaz_nonpos(-(a as int), d as int);
            let q = rhaz(-(a as int), d as int);
            assert(q * step <= 0) by (nonlinear_arith)
                requires
                    q <= 0,
                    step >= 1,
            ;
            if a == 0 {
                assert(rhaz(0, d as int) == (d as int) / (2 * (d as int)));
                lemma_basic_div(d as int, 2 * d as int);
                assert(rhaz(-(a as int), d as int) * (step as int) == 0) by (nonlinear_arith)
                    requires
                        rhaz(-(a as int), d as int) == 0,
                ;
            }
        }
        0
    } else {
        let q: u128 = (2 * a + d) / (2 * d);
        proof {
            assert(q == rhaz(a as int, d as int));
        }
        match q.checked_mul(step) {
            Some(p) => {
                if p > u64::MAX as u128 {
                    largest_multiple(step)
                } else {
                    p as u64
                }
            },
            None => largest_multiple(step),
        }
    }
}

/// The largest multiple of the step that fits in `u64`: what an overlarge
/// rounded value saturates to.
fn largest_multiple(step: u128) -> (r: u64)
    requires
        1 <= step,
        step <= u64::MAX,
    ensures
        r == ((u64::MAX as int) / (step as int)) * (step as int),
{
    proof {
        lemma_largest_multiple_fits(step as int);
    }
    let q: u128 = (u64::MAX as u128) / step;
    (q * step) as u64
}

/// The noise draw `r`, rounded to the nearest integer with halves away from
/// zero, as the document rewriter uses it for its integer perturbation.
pub fn round_to_nearest_int(r: Ratio) -> (p: i64)
    requires
        r.wf(),
    ensures
        p == rhaz(r.num as int, r.den as int),
{
    let d: u128 = r.den as u128;
    if r.num >= 0 {
        let a: u128 = r.num as u128;
        let q: u128 = (2 * a + d) / (2 * d);
        proof {
            lemma_rhaz_le_mag(a as int, d as int);
        }
        q as i64
    } else {
        let a: u128 = (-(r.num as i128)) as u128;
        let q: u128 = (2 * a + d) / (2 * d);
        proof {
            lemma_rhaz_le_mag(a as int, d as int);
        }
        (-(q as i128)) as i64
    }
}

/// For a non-negative magnitude, rounding to the nearest integer never
/// exceeds the magnitude itself (and is zero for zero).
proof fn lemma_rhaz_le_mag(a: int, d: int)
    requires
        a >= 0,
        d >= 1,
    ensures
        0 <= (2 * a + d) / (2 * d) <= a,
{
    lemma_div_pos_is_pos(2 * a + d, 2 * d);
    if a == 0 {
        lemma_basic_div(d, 2 * d);
    } else {
        assert(2 * a + d < (2 * d) * (a + 1)) by (nonlinear_arith)
            requires
                a >= 1,
                d >= 1,
        ;
        lemma_fundamental_div_mod(2 * a + d, 2 * d);
        lemma_mod_division_less_than_divisor(2 * a + d, 2 * d);
        let q = (2 * a + d) / (2 * d);
        assert(q <= a) by (nonlinear_arith)
            requires
                (2 * d) * q <= 2 * a + d < (2 * d) * (a + 1),
                d >= 1,
        ;
    }
}

} // verus!
