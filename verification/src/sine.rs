//! A fixed-point sine wave over a 2^32-unit circle.
//!
//! Phases are fractions of a full cycle scaled by 2^32, so the phase of a
//! sinusoid of `f` hertz at time `t` seconds is `f * t * 2^32 mod 2^32`.
//! The wave itself is Bhaskara I's rational approximation of the sine,
//! scaled so that [`crate::SIG_ONE`] stands for 1.0. It is exact at every
//! quarter turn: 0 at phase 0 and the half turn, `SIG_ONE` at the quarter
//! turn and `-SIG_ONE` at the three-quarter turn.

use vstd::prelude::*;
use vstd::arithmetic::div_mod::{lemma_div_is_ordered, lemma_div_multiples_vanish};
use crate::SIG_ONE;

verus! {

/// Half a cycle, in phase units: 2^31.
pub const HALF_TURN: u32 = 0x8000_0000;

/// The positive half-wave of the sine (Bhaskara I's rational
/// approximation), scaled by `SIG_ONE`: for `x` in `[0, HALF_TURN]` this
/// approximates `SIG_ONE * sin(pi * x / HALF_TURN)`, exactly 0 at the
/// endpoints and exactly `SIG_ONE` at the midpoint `x == HALF_TURN / 2`.
pub open spec fn half_wave(x: int) -> int {
    let a = x * (0x8000_0000 - x);
    (16 * a * (SIG_ONE as int)) / (0x1_4000_0000_0000_0000 - 4 * a)
}

/// One cycle of the sine wave over a full turn of 2^32 phase units: the
/// first half turn is the positive half-wave, the second its negation.
pub open spec fn sine_wave(p: int) -> int {
    if p < HALF_TURN {
        half_wave(p)
    } else {
        -half_wave(p - HALF_TURN)
    }
}

fn half_wave_exec(x: u32) -> (r: i64)
    requires
        x <= HALF_TURN,
    ensures
        r == half_wave(x as int),
        0 <= r <= SIG_ONE,
{
    proof {
        assert(0 <= (x as int) * (0x8000_0000 - x as int) <= 0x1000_0000_0000_0000)
            by (nonlinear_arith)
            requires
                0 <= x as int <= 0x8000_0000,
        ;
    }
    let a = (x as u128) * (0x8000_0000u128 - x as u128);
    let num = 16 * a * 65536u128;
    let den = 0x1_4000_0000_0000_0000u128 - 4 * a;
    let r = num / den;
    proof {
        // num <= SIG_ONE * den, so the quotient is at most SIG_ONE
        assert(num as int <= (den as int) * 65536);
        lemma_div_is_ordered(num as int, (den as int) * 65536, den as int);
        lemma_div_multiples_vanish(65536, den as int);
    }
    r as i64
}

/// Evaluates one cycle of the fixed-point sine wave at phase `p`, a
/// fraction of a full turn scaled by 2^32. The result is deterministic
/// in `p` and always within `[-SIG_ONE, SIG_ONE]`.
pub fn sin_turns(p: u32) -> (r: i64)
    ensures
        r == sine_wave(p as int),
        -SIG_ONE <= r <= SIG_ONE,
{
    if p < HALF_TURN {
        half_wave_exec(p)
    } else {
        let v = half_wave_exec(p - HALF_TURN);
        -v
    }
}

} // verus!
