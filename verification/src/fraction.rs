//! Fractions in parts per billion.
//!
//! Weights, thresholds, trust levels, relevance scores and rates are
//! fractions of one. The library keeps them as integers counting billionths,
//! so that every rule on them is exact integer arithmetic: `0.1` is
//! `100_000_000`, `1.0` is [`ONE`]. Weights, thresholds and rates are signed
//! (`i64`), as they may be negative; relevance scores and trust levels are
//! unsigned (`u64`).
use vstd::prelude::*;

verus! {

/// One whole, in parts per billion.
pub const ONE: i64 = 1_000_000_000;

/// The forget threshold of a tile on its own, and of a new afterlife (0.05).
pub const DEFAULT_FORGET_THRESHOLD: i64 = 50_000_000;

/// The smallest boost a query gives a tile (0.06).
pub const MIN_BOOST: i64 = 60_000_000;

/// A tile is strongly present when its weight is above one half.
pub const STRONG_ABOVE: i64 = 500_000_000;

/// The initial weight of a new ghost tile (0.1).
pub const DEFAULT_GHOST_WEIGHT: i64 = 100_000_000;

/// The default share of weight lost per period (0.1).
pub const DEFAULT_DECAY_RATE: i64 = 100_000_000;

/// What one matching tag adds to a relevance score (0.2).
pub const TAG_SCORE: u64 = 200_000_000;

/// One whole as an unsigned relevance or trust level.
pub const UNIT: u64 = 1_000_000_000;

/// The smaller of two integers.
pub open spec fn min_int(a: int, b: int) -> int {
    if a <= b {
        a
    } else {
        b
    }
}

/// The larger of two integers.
pub open spec fn max_int(a: int, b: int) -> int {
    if a >= b {
        a
    } else {
        b
    }
}

/// `x` held within the range of `i64`.
pub open spec fn within_i64(x: int) -> int {
    if x > i64::MAX {
        i64::MAX as int
    } else if x < i64::MIN {
        i64::MIN as int
    } else {
        x
    }
}

/// `w` scaled by `1 - rate`, rounded down, for any rate (a rate above one
/// turns the weight's sign); a result beyond the range of `i64` is held at
/// its nearest end.
pub open spec fn decayed_weight(w: i64, rate: i64) -> int {
    within_i64((w * (ONE - rate)) / (ONE as int))
}

/// The boost a query of relevance `rel` gives: a tenth of it, but at least
/// [`MIN_BOOST`].
pub open spec fn boost_amount(rel: u64) -> int {
    max_int((rel / 10) as int, MIN_BOOST as int)
}

/// `w` raised by the boost for `rel`, capped at one.
pub open spec fn boosted_weight(w: i64, rel: u64) -> int {
    min_int(w + boost_amount(rel), ONE as int)
}

/// A trust level clamped to at most one.
pub open spec fn clamped_unit(x: u64) -> int {
    min_int(x as int, UNIT as int)
}

/// `n / d` rounded down, for a positive `d`.
pub(crate) fn floor_div(n: i128, d: u128) -> (res: i128)
    requires
        0 < d,
        d <= u64::MAX,
        -0x7fff_ffff_ffff_ffff_ffff_ffff_ffff_fff0 <= n <= 0x7fff_ffff_ffff_ffff_ffff_ffff_ffff_fff0,
    ensures
        res == (n as int) / (d as int),
{
    if n >= 0 {
        let q: u128 = (n as u128) / d;
        assert(q <= n) by (nonlinear_arith)
            requires
                q == (n as int) / (d as int),
                0 < d,
                0 <= n,
        ;
        q as i128
    } else {
        let m: u128 = (-n) as u128;
        let q: u128 = (m + d - 1) / d;
        assert(q <= m && (n as int) / (d as int) == -(q as int)) by (nonlinear_arith)
            requires
                q == ((m + d - 1) as int) / (d as int),
                m == -n,
                0 < d,
                n < 0,
        ;
        -(q as i128)
    }
}

/// Scales `w` by `1 - rate`, rounding down.
pub fn decay_weight(w: i64, rate: i64) -> (res: i64)
    ensures
        res == decayed_weight(w, rate),
{
    let factor: i128 = (ONE as i128) - (rate as i128);
    assert(-0x7fff_ffff_ffff_ffff_ffff_ffff_ffff_fff0 <= w * factor
        <= 0x7fff_ffff_ffff_ffff_ffff_ffff_ffff_fff0) by (nonlinear_arith)
        requires
            i64::MIN <= w <= i64::MAX,
            -0x8000_0000_3b9a_ca00 <= factor <= 0x8000_0000_3b9a_ca00,
    ;
    let prod: i128 = (w as i128) * factor;
    let q: i128 = floor_div(prod, ONE as u128);
    if q > (i64::MAX as i128) {
        i64::MAX
    } else if q < (i64::MIN as i128) {
        i64::MIN
    } else {
        q as i64
    }
}

/// Raises `w` by the boost for a query of relevance `rel`, capped at one.
pub fn boost_weight(w: i64, rel: u64) -> (res: i64)
    ensures
        res == boosted_weight(w, rel),
        res <= ONE,
        w < ONE ==> res > w,
        w >= ONE - MIN_BOOST ==> res == ONE,
{
    let tenth: u64 = rel / 10;
    let amount: i128 = if tenth >= (MIN_BOOST as u64) {
        tenth as i128
    } else {
        MIN_BOOST as i128
    };
    let sum: i128 = (w as i128) + amount;
    if sum >= (ONE as i128) {
        ONE
    } else {
        sum as i64
    }
}

/// Clamps a trust level to at most one.
pub fn clamp_unit(x: u64) -> (res: u64)
    ensures
        res == clamped_unit(x),
{
    if x <= UNIT {
        x
    } else {
        UNIT
    }
}

} // verus!
