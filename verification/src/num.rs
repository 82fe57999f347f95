//! Small numeric utilities: total-order `min`/`max`, clamping, and a
//! total-order wrapper for values whose own ordering is only partial.

use vstd::prelude::*;

verus! {

/// The smaller of `a` and `b`; returns `b` when the two are equal.
pub fn min(a: i64, b: i64) -> (r: i64)
    ensures
        r == if a < b { a } else { b },
{
    if a < b {
        a
    } else {
        b
    }
}

/// The larger of `a` and `b`; returns `b` when the two are equal.
pub fn max(a: i64, b: i64) -> (r: i64)
    ensures
        r == if a > b { a } else { b },
{
    if a > b {
        a
    } else {
        b
    }
}

/// Clamp `value` into the inclusive range from `low` to `high`.
pub fn clamp(value: i64, low: i64, high: i64) -> (r: i64)
    requires
        low <= high,
    ensures
        low <= r <= high,
        r == if value < low {
            low
        } else if value > high {
            high
        } else {
            value
        },
{
    if value < low {
        low
    } else if value > high {
        high
    } else {
        value
    }
}

/// Map a value from one range to another range, scaling by the integer
/// quotient of the ranges' widths.
pub fn map_range(value: i64, in_low: i64, in_high: i64, out_low: i64, out_high: i64) -> (r: i64)
    requires
        in_low < in_high,
        out_low < out_high,
        in_low <= value <= in_high,
        -(crate::COORD_LIMIT as int) <= in_low <= crate::COORD_LIMIT as int,
        -(crate::COORD_LIMIT as int) <= in_high <= crate::COORD_LIMIT as int,
        -(crate::COORD_LIMIT as int) <= out_low <= crate::COORD_LIMIT as int,
        -(crate::COORD_LIMIT as int) <= out_high <= crate::COORD_LIMIT as int,
    ensures
        r == out_low + ((out_high - out_low) / (in_high - in_low)) * (value - in_low),
{
    let dividend: i64 = out_high - out_low;
    let divisor: i64 = in_high - in_low;
    let slope: i64 = dividend / divisor;
    let offset: i64 = value - in_low;
    proof {
        assert(slope <= dividend && 0 <= slope) by (nonlinear_arith)
            requires
                slope == dividend / divisor,
                0 < dividend,
                0 < divisor,
        ;
        crate::line::lemma_mul_bound(
            slope as int,
            offset as int,
            2 * crate::COORD_LIMIT as int,
            2 * crate::COORD_LIMIT as int,
        );
        assert(0 <= slope * offset) by (nonlinear_arith)
            requires
                0 <= slope,
                0 <= offset,
        ;
    }
    out_low + slope * offset
}

/// Wrapper that lends a total order to a payload whose own ordering may be
/// only partial, by deriving the ordering structurally over the payload.
#[derive(Copy, Clone, Debug, Default, PartialEq, Eq, PartialOrd, Ord, Hash)]
pub struct NoMorePartial<T>(pub T);

} // verus!
