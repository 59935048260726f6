//! Exact rational numbers for tempo values.
//!
//! A beats-per-minute value is derived from a decimal field of the source
//! record and is kept as an exact quotient of two integers, so that every
//! later timing computation is exact.

use vstd::prelude::*;
use crate::round_div;

verus! {

/// Bound on the magnitude of a rational's parts, large enough for any
/// quotient formed from a decimal field of at most 18 digits.
pub const RAT_BOUND: i128 = 100_000_000_000_000_000_000_000;

/// An exact rational `num / den` with a positive denominator.
#[derive(Clone, Copy, Debug)]
pub struct Rat {
    pub num: i128,
    pub den: i128,
}

impl Rat {
    /// Well-formed: positive denominator, both parts bounded.
    pub open spec fn wf(self) -> bool {
        &&& 1 <= self.den <= RAT_BOUND
        &&& -RAT_BOUND <= self.num <= RAT_BOUND
    }

    /// Well-formed and strictly positive.
    pub open spec fn wf_pos(self) -> bool {
        self.wf() && self.num >= 1
    }
}

/// The tempo value rounded to thousandths: `round(1000 * num / den)`,
/// halves away from zero.
pub open spec fn millibpm_s(r: Rat) -> int {
    round_div(1000 * r.num, r.den as int)
}

/// Rounded thousandths of a positive rational, for the tempo marker text.
pub fn millibpm(r: &Rat) -> (m: i128)
    requires
        r.wf_pos(),
    ensures
        m == millibpm_s(*r),
        m >= 0,
{
    proof {
        assert(1 <= 2000 * (r.num as int) + r.den as int <= 3000 * RAT_BOUND) by (nonlinear_arith)
            requires
                1 <= r.num <= RAT_BOUND,
                1 <= r.den <= RAT_BOUND,
        ;
    }
    (2 * 1000 * r.num + r.den) / (2 * r.den)
}

/// The elapsed span `dt` milliseconds at tempo `bpm`, measured in rounded
/// 1/384ths of a measure: `round(dt * 96 * bpm / 60000)`.
pub open spec fn raw_ticks_s(dt: int, bpm: Rat) -> int {
    round_div(dt * 96 * bpm.num, 60000 * bpm.den)
}

/// Largest tick count any admissible span and tempo can produce.
pub const RAW_TICKS_MAX: i128 = 41_231_686_041_600_000_000_000_000_000_000_000;

/// Exact tick count for a non-negative millisecond span at a positive tempo.
/// The span fits the difference of two signed 32-bit timestamps.
pub fn raw_ticks(dt: i64, bpm: &Rat) -> (r: i128)
    requires
        0 <= dt <= 0x1_0000_0000,
        bpm.wf_pos(),
    ensures
        r == raw_ticks_s(dt as int, *bpm),
        0 <= r <= RAW_TICKS_MAX,
{
    proof {
        assert(0 <= (dt as int) * 96 * (bpm.num as int) <= 0x1_0000_0000 * 96 * RAT_BOUND)
            by (nonlinear_arith)
            requires
                0 <= dt <= 0x1_0000_0000,
                1 <= bpm.num <= RAT_BOUND,
        ;
    }
    let p: i128 = (dt as i128) * 96 * bpm.num;
    let q: i128 = 60000 * bpm.den;
    proof {
        assert((2 * (p as int) + q as int) / (2 * (q as int)) >= 0) by (nonlinear_arith)
            requires
                p >= 0,
                q >= 1,
        ;
        let r = (2 * (p as int) + q as int) / (2 * (q as int));
        vstd::arithmetic::div_mod::lemma_fundamental_div_mod(2 * (p as int) + q as int, 2 * (
        q as int));
        assert(r <= p) by (nonlinear_arith)
            requires
                p >= 0,
                q >= 1,
                2 * (p as int) + q as int == 2 * (q as int) * r + (2 * (p as int) + q as int) % (
                2 * (q as int)),
                0 <= (2 * (p as int) + q as int) % (2 * (q as int)) < 2 * (q as int),
        ;
    }
    (2 * p + q) / (2 * q)
}

} // verus!
