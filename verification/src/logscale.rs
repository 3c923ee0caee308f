//! Log-spaced frequency mapping in Q32.32 fixed point.
//!
//! Frequency bins are spaced evenly on a logarithmic frequency axis. The
//! base-2 logarithm and exponential used here are piecewise linear: exact
//! at every power of two and linearly interpolated within each octave, and
//! exact inverses of one another on integer inputs. A logarithmic axis is
//! the same whatever the base, so this realizes the usual log-scale bin
//! placement with bin 0 mapped exactly to the highest frequency.

use vstd::prelude::*;
use vstd::arithmetic::power2::{
    pow2, lemma_pow2_adds, lemma_pow2_pos, lemma_pow2_strictly_increases, lemma2_to64,
    lemma2_to64_rest,
};
use vstd::arithmetic::div_mod::{
    lemma_div_is_ordered, lemma_div_multiples_vanish, lemma_div_pos_is_pos,
    lemma_fundamental_div_mod,
};
use vstd::arithmetic::mul::{
    lemma_mul_inequality, lemma_mul_is_commutative, lemma_mul_nonnegative,
};

verus! {

/// Floor of the base-2 logarithm of a positive integer.
pub open spec fn ilog2(x: nat) -> nat
    decreases x,
{
    if x < 2 {
        0
    } else {
        (ilog2(x / 2) + 1) as nat
    }
}

/// Q32.32 base-2 logarithm of a positive integer: exact at powers of two,
/// linearly interpolated within each octave. For `2^e <= x < 2^(e+1)` this
/// is `e * 2^32 + (x * 2^(32-e) - 2^32)`.
pub open spec fn log2_fix(x: nat) -> int {
    let e = ilog2(x);
    x * pow2((32 - e) as nat) + (e - 1) * 0x1_0000_0000
}

/// Q32.32 base-2 exponential, floored to an integer: for `y == e * 2^32 + f`
/// with `0 <= f < 2^32` this is `floor((2^32 + f) * 2^e / 2^32)`, the exact
/// inverse of [`log2_fix`] on integer arguments.
pub open spec fn exp2_fix(y: int) -> int {
    let e = y / 0x1_0000_0000;
    let f = y % 0x1_0000_0000;
    ((0x1_0000_0000 + f) * pow2(e as nat)) / 0x1_0000_0000
}

/// The frequency, in hertz, of bin `i` out of `n`: bins are spaced evenly
/// on the logarithmic axis between `low` and `high`, running from `high`
/// at bin 0 down toward `low`.
pub open spec fn bin_frequency(low: nat, high: nat, n: int, i: int) -> int {
    let ll = log2_fix(low);
    let lh = log2_fix(high);
    exp2_fix(ll + ((lh - ll) * (n - i)) / n)
}

/// The floor of the base-2 logarithm brackets its argument between two
/// consecutive powers of two.
pub proof fn lemma_ilog2_bounds(x: nat)
    requires
        x >= 1,
    ensures
        pow2(ilog2(x)) <= x < pow2(ilog2(x) + 1),
    decreases x,
{
    lemma2_to64();
    if x < 2 {
    } else {
        lemma_ilog2_bounds(x / 2);
        let e = ilog2(x / 2);
        lemma_pow2_adds(e, 1);
        lemma_pow2_adds(e + 1, 1);
        lemma_fundamental_div_mod(x as int, 2);
        assert(pow2(e + 1) == 2 * pow2(e));
        assert(pow2(e + 2) == 2 * pow2(e + 1));
    }
}

/// Within `[1, 2^32)`, the Q32.32 logarithm of `x` lies in the octave band
/// `[e * 2^32, (e+1) * 2^32)` where `e == ilog2(x)`, and the interpolated
/// mantissa `x * 2^(32-e)` lies in `[2^32, 2^33)`.
pub proof fn lemma_log2_fix_bounds(x: nat)
    requires
        1 <= x < 0x1_0000_0000,
    ensures
        ilog2(x) <= 31,
        0x1_0000_0000 <= x * pow2((32 - ilog2(x)) as nat) < 0x2_0000_0000,
        (ilog2(x) as int) * 0x1_0000_0000 <= log2_fix(x) < (ilog2(x) + 1) * 0x1_0000_0000,
        0 <= log2_fix(x) < 0x20_0000_0000,
{
    lemma_ilog2_bounds(x);
    let e = ilog2(x);
    lemma2_to64();
    if e >= 32 {
        if e > 32 {
            lemma_pow2_strictly_increases(32, e);
        }
        assert(false);
    }
    let p = pow2((32 - e) as nat);
    lemma_pow2_pos((32 - e) as nat);
    // lower bound: x * p >= pow2(e) * p == 2^32
    lemma_mul_inequality(pow2(e) as int, x as int, p as int);
    lemma_pow2_adds(e, (32 - e) as nat);
    // upper bound: x * p <= (pow2(e + 1) - 1) * p == 2^33 - p < 2^33
    lemma_mul_inequality(x as int, pow2(e + 1) as int - 1, p as int);
    assert((pow2(e + 1) as int - 1) * (p as int) == (pow2(e + 1) as int) * (p as int) - p)
        by (nonlinear_arith);
    lemma_pow2_adds(e + 1, (32 - e) as nat);
    assert(pow2(33) == 0x2_0000_0000) by {
        lemma2_to64_rest();
    }
}

/// The Q32.32 logarithm does not decrease as its argument grows.
pub proof fn lemma_log2_fix_monotone(x: nat, y: nat)
    requires
        1 <= x <= y,
        y < 0x1_0000_0000,
    ensures
        log2_fix(x) <= log2_fix(y),
{
    lemma_ilog2_bounds(x);
    lemma_ilog2_bounds(y);
    lemma_log2_fix_bounds(x);
    lemma_log2_fix_bounds(y);
    let e1 = ilog2(x);
    let e2 = ilog2(y);
    if e1 > e2 {
        // then x >= pow2(e1) >= pow2(e2 + 1) > y, contradicting x <= y
        if e1 > e2 + 1 {
            lemma_pow2_strictly_increases(e2 + 1, e1);
        }
        assert(false);
    }
    if e1 == e2 {
        lemma_mul_inequality(x as int, y as int, pow2((32 - e1) as nat) as int);
    }
}

/// The Q32.32 exponential inverts the Q32.32 logarithm exactly on every
/// positive 32-bit integer.
pub proof fn lemma_exp2_log2_identity(x: nat)
    requires
        1 <= x < 0x1_0000_0000,
    ensures
        exp2_fix(log2_fix(x)) == x,
{
    lemma_ilog2_bounds(x);
    lemma_log2_fix_bounds(x);
    let e = ilog2(x);
    let p = pow2((32 - e) as nat) as int;
    let m = (x as int) * p;
    let y = log2_fix(x);
    assert(y == (e as int) * 0x1_0000_0000 + (m - 0x1_0000_0000));
    assert(y / 0x1_0000_0000 == e && y % 0x1_0000_0000 == m - 0x1_0000_0000) by {
        vstd::arithmetic::div_mod::lemma_fundamental_div_mod_converse(
            y,
            0x1_0000_0000,
            e as int,
            m - 0x1_0000_0000,
        );
    }
    // (2^32 + f) * pow2(e) == x * pow2(32 - e) * pow2(e) == x * 2^32
    lemma_pow2_adds((32 - e) as nat, e);
    lemma2_to64();
    assert(m * (pow2(e) as int) == (x as int) * (0x1_0000_0000 as int)) by (nonlinear_arith)
        requires
            m == (x as int) * p,
            p * (pow2(e) as int) == 0x1_0000_0000,
    ;
    lemma_mul_is_commutative(x as int, 0x1_0000_0000);
    lemma_div_multiples_vanish(x as int, 0x1_0000_0000);
}

/// The Q32.32 exponential does not decrease as its argument grows.
pub proof fn lemma_exp2_fix_monotone(y1: int, y2: int)
    requires
        0 <= y1 <= y2,
        y2 < 0x20_0000_0000,
    ensures
        exp2_fix(y1) <= exp2_fix(y2),
{
    let e1 = y1 / 0x1_0000_0000;
    let f1 = y1 % 0x1_0000_0000;
    let e2 = y2 / 0x1_0000_0000;
    let f2 = y2 % 0x1_0000_0000;
    lemma_div_is_ordered(y1, y2, 0x1_0000_0000);
    lemma_pow2_pos(e1 as nat);
    lemma_pow2_pos(e2 as nat);
    if e1 == e2 {
        lemma_mul_inequality(0x1_0000_0000 + f1, 0x1_0000_0000 + f2, pow2(e1 as nat) as int);
        lemma_div_is_ordered(
            (0x1_0000_0000 + f1) * (pow2(e1 as nat) as int),
            (0x1_0000_0000 + f2) * (pow2(e2 as nat) as int),
            0x1_0000_0000,
        );
    } else {
        // (2^32 + f1) * 2^e1 < 2^33 * 2^e1 == 2^32 * 2^(e1+1) <= 2^32 * 2^e2
        //                                  <= (2^32 + f2) * 2^e2
        lemma_mul_inequality(0x1_0000_0000 + f1, 0x2_0000_0000, pow2(e1 as nat) as int);
        lemma_pow2_adds(33, e1 as nat);
        lemma_pow2_adds(32, (e1 + 1) as nat);
        lemma_pow2_adds(32, e2 as nat);
        lemma2_to64();
        if e1 + 1 < e2 {
            lemma_pow2_strictly_increases((e1 + 1) as nat, e2 as nat);
        }
        lemma_mul_inequality(0x1_0000_0000, 0x1_0000_0000 + f2, pow2(e2 as nat) as int);
        lemma_div_is_ordered(
            (0x1_0000_0000 + f1) * (pow2(e1 as nat) as int),
            (0x1_0000_0000 + f2) * (pow2(e2 as nat) as int),
            0x1_0000_0000,
        );
    }
}

/// Every bin frequency lies within the mapped range.
pub proof fn lemma_bin_frequency_in_range(low: nat, high: nat, n: int, i: int)
    requires
        1 <= low <= high,
        high < 0x1_0000_0000,
        0 <= i < n,
    ensures
        low <= bin_frequency(low, high, n, i) <= high,
{
    lemma_log2_fix_bounds(low);
    lemma_log2_fix_bounds(high);
    lemma_log2_fix_monotone(low, high);
    let ll = log2_fix(low);
    let lh = log2_fix(high);
    let step = ((lh - ll) * (n - i)) / n;
    lemma_mul_nonnegative(lh - ll, n - i);
    lemma_div_pos_is_pos((lh - ll) * (n - i), n);
    lemma_mul_inequality(n - i, n, lh - ll);
    lemma_mul_is_commutative(lh - ll, n - i);
    lemma_mul_is_commutative(lh - ll, n);
    lemma_div_is_ordered((lh - ll) * (n - i), (lh - ll) * n, n);
    lemma_div_multiples_vanish(lh - ll, n);
    assert(0 <= step <= lh - ll);
    lemma_exp2_fix_monotone(ll, ll + step);
    lemma_exp2_fix_monotone(ll + step, lh);
    lemma_exp2_log2_identity(low);
    lemma_exp2_log2_identity(high);
}

/// Bin frequencies run downward: a later bin is mapped to a frequency no
/// higher than an earlier bin's.
pub proof fn lemma_bin_frequency_antitone(low: nat, high: nat, n: int, i1: int, i2: int)
    requires
        1 <= low <= high,
        high < 0x1_0000_0000,
        0 <= i1 <= i2 < n,
    ensures
        bin_frequency(low, high, n, i2) <= bin_frequency(low, high, n, i1),
{
    lemma_log2_fix_bounds(low);
    lemma_log2_fix_bounds(high);
    lemma_log2_fix_monotone(low, high);
    let ll = log2_fix(low);
    let lh = log2_fix(high);
    lemma_mul_inequality(n - i2, n - i1, lh - ll);
    lemma_mul_is_commutative(lh - ll, n - i2);
    lemma_mul_is_commutative(lh - ll, n - i1);
    lemma_div_is_ordered((lh - ll) * (n - i2), (lh - ll) * (n - i1), n);
    let step1 = ((lh - ll) * (n - i1)) / n;
    let step2 = ((lh - ll) * (n - i2)) / n;
    lemma_mul_nonnegative(lh - ll, n - i2);
    lemma_div_pos_is_pos((lh - ll) * (n - i2), n);
    lemma_mul_inequality(n - i1, n, lh - ll);
    lemma_mul_is_commutative(lh - ll, n);
    lemma_div_is_ordered((lh - ll) * (n - i1), (lh - ll) * n, n);
    lemma_div_multiples_vanish(lh - ll, n);
    lemma_exp2_fix_monotone(ll + step2, ll + step1);
}

/// Bin 0 is mapped exactly to the highest frequency of the range.
pub proof fn lemma_bin_zero_frequency_is_high(low: nat, high: nat, n: int)
    requires
        1 <= low <= high,
        high < 0x1_0000_0000,
        n >= 1,
    ensures
        bin_frequency(low, high, n, 0) == high,
{
    lemma_log2_fix_monotone(low, high);
    let ll = log2_fix(low);
    let lh = log2_fix(high);
    lemma_mul_is_commutative(lh - ll, n);
    lemma_div_multiples_vanish(lh - ll, n);
    lemma_exp2_log2_identity(high);
}

/// A degenerate range maps every bin to the one frequency it holds.
pub proof fn lemma_degenerate_range_frequency(low: nat, n: int, i: int)
    requires
        1 <= low < 0x1_0000_0000,
        0 <= i < n,
    ensures
        bin_frequency(low, low, n, i) == low,
{
    let ll = log2_fix(low);
    assert(((ll - ll) * (n - i)) / n == 0) by {
        vstd::arithmetic::mul::lemma_mul_by_zero_is_zero(n - i);
        vstd::arithmetic::div_mod::lemma_div_of0(n);
    }
    lemma_exp2_log2_identity(low);
}

fn pow2_exec(e: u32) -> (r: u64)
    requires
        e <= 63,
    ensures
        r == pow2(e as nat),
{
    let mut r: u64 = 1;
    let mut i: u32 = 0;
    proof {
        lemma2_to64();
        lemma2_to64_rest();
    }
    while i < e
        invariant
            i <= e <= 63,
            r == pow2(i as nat),
            pow2(63) == 0x8000_0000_0000_0000,
        decreases e - i,
    {
        proof {
            if ((i + 1) as nat) < 63 {
                lemma_pow2_strictly_increases((i + 1) as nat, 63);
            }
            lemma_pow2_adds(i as nat, 1);
            lemma2_to64();
        }
        r = r * 2;
        i = i + 1;
    }
    r
}

fn log2_floor(x: u32) -> (e: u32)
    requires
        x >= 1,
    ensures
        e as nat == ilog2(x as nat),
        e <= 31,
{
    let mut n: u32 = x;
    let mut e: u32 = 0;
    proof {
        lemma2_to64();
    }
    while n >= 2
        invariant
            1 <= n,
            ilog2(x as nat) == e as nat + ilog2(n as nat),
            (n as nat) * pow2(e as nat) <= x as nat,
            e <= 31,
            pow2(32) == 0x1_0000_0000,
        decreases n,
    {
        proof {
            let nn = n as nat;
            let en = e as nat;
            assert(ilog2(nn) == ilog2(nn / 2) + 1);
            lemma_pow2_adds(en, 1);
            lemma2_to64();
            lemma_fundamental_div_mod(n as int, 2);
            // (n / 2) * pow2(e + 1) == (2 * (n / 2)) * pow2(e) <= n * pow2(e) <= x
            assert((nn / 2) * pow2(en + 1) <= nn * pow2(en)) by (nonlinear_arith)
                requires
                    pow2(en + 1) == 2 * pow2(en),
                    2 * (nn / 2) <= nn,
            ;
            // e + 1 stays at most 31: pow2(e + 1) <= (n / 2) * pow2(e + 1) <= x < 2^32
            lemma_pow2_pos(en + 1);
            lemma_mul_inequality(1, (nn / 2) as int, pow2(en + 1) as int);
            if en + 1 >= 32 {
                if en + 1 > 32 {
                    lemma_pow2_strictly_increases(32, en + 1);
                }
                assert(false);
            }
        }
        n = n / 2;
        e = e + 1;
    }
    e
}

/// Computes the Q32.32 base-2 logarithm [`log2_fix`] of a positive integer.
pub fn log2_q32(x: u32) -> (r: u64)
    requires
        x >= 1,
    ensures
        r as int == log2_fix(x as nat),
        r < 0x20_0000_0000,
{
    proof {
        lemma_log2_fix_bounds(x as nat);
    }
    let e = log2_floor(x);
    let p = pow2_exec(32 - e);
    let m = (x as u64) * p;
    let r = m - 0x1_0000_0000u64 + (e as u64) * 0x1_0000_0000u64;
    r
}

/// Computes the Q32.32 base-2 exponential [`exp2_fix`] of a Q32.32 value
/// below `32 * 2^32` (so the result fits well within 64 bits).
pub fn exp2_q32(y: u64) -> (r: u64)
    requires
        y < 0x20_0000_0000,
    ensures
        r as int == exp2_fix(y as int),
{
    let e = y / 0x1_0000_0000u64;
    let f = y % 0x1_0000_0000u64;
    let p = pow2_exec(e as u32);
    proof {
        if ((e as nat) < 31) {
            lemma_pow2_strictly_increases(e as nat, 31);
        }
        lemma2_to64();
        assert(p <= 0x8000_0000);
    }
    proof {
        assert(0 <= (0x1_0000_0000 + f as int) * (p as int) <= 0x1_0000_0000_0000_0000_0000)
            by (nonlinear_arith)
            requires
                0 <= (f as int) < 0x1_0000_0000,
                0 <= (p as int) <= 0x8000_0000,
        ;
    }
    let wide = ((0x1_0000_0000u128 + f as u128) * (p as u128)) / 0x1_0000_0000u128;
    wide as u64
}

/// Computes the log-spaced frequency [`bin_frequency`] of bin `i` out of
/// `n`, between `low` and `high` hertz, with bin 0 highest.
pub fn frequency_of_bin(low: u32, high: u32, n: usize, i: usize) -> (f: u64)
    requires
        1 <= low <= high,
        i < n,
        n <= 0xFFFF_FFFFusize,
    ensures
        f as int == bin_frequency(low as nat, high as nat, n as int, i as int),
{
    let ll = log2_q32(low);
    let lh = log2_q32(high);
    proof {
        lemma_log2_fix_monotone(low as nat, high as nat);
    }
    let delta = lh - ll;
    proof {
        assert(0 <= (delta as int) * ((n - i) as int) < 0x20_0000_0000_0000_0000)
            by (nonlinear_arith)
            requires
                0 <= (delta as int) < 0x20_0000_0000,
                0 <= ((n - i) as int) < 0x1_0000_0000,
        ;
    }
    let num = (delta as u128) * ((n - i) as u128);
    let step = num / (n as u128);
    proof {
        lemma_mul_is_commutative(delta as int, (n - i) as int);
        lemma_mul_is_commutative(delta as int, n as int);
        lemma_mul_inequality((n - i) as int, n as int, delta as int);
        lemma_div_is_ordered((delta as int) * ((n - i) as int), (delta as int) * (n as int),
            n as int);
        lemma_div_multiples_vanish(delta as int, n as int);
    }
    let arg = ll + (step as u64);
    exp2_q32(arg)
}

} // verus!
