use vstd::prelude::*;
use crate::ratio::{lemma_product_bound, Ratio};

verus! {

/// `v` brought into `[min, max]`: `min` where `v` is below it, `max` where `v`
/// is above it, else `v` itself.
pub open spec fn clamped(v: Ratio, min: Ratio, max: Ratio) -> Ratio {
    if v.less_than(min) {
        min
    } else if max.less_than(v) {
        max
    } else {
        v
    }
}

/// Brings `v` into the interval `[min, max]`.
pub fn clamp(v: Ratio, min: Ratio, max: Ratio) -> (r: Ratio)
    requires
        v.wf() && min.wf() && max.wf(),
        v.is_short() && min.is_short() && max.is_short(),
    ensures
        r == clamped(v, min, max),
{
    proof {
        lemma_product_bound(v.num as int, min.den as int, 0x8000_0000, 0x8000_0000);
        lemma_product_bound(min.num as int, v.den as int, 0x8000_0000, 0x8000_0000);
        lemma_product_bound(v.num as int, max.den as int, 0x8000_0000, 0x8000_0000);
        lemma_product_bound(max.num as int, v.den as int, 0x8000_0000, 0x8000_0000);
    }
    if v.num * min.den < min.num * v.den {
        return min;
    }
    if max.num * v.den < v.num * max.den {
        return max;
    }
    v
}

/// The whole part of the square root of `n`: the largest `s` with
/// `s * s <= n`.
pub fn integer_sqrt(n: u128) -> (s: u128)
    ensures
        s * s <= n < (s + 1) * (s + 1),
        s < 0x1_0000_0000_0000_0000,
{
    let mut low: u128 = 0;
    let mut high: u128 = 0x1_0000_0000_0000_0000;
    proof {
        assert(0x1_0000_0000_0000_0000 * 0x1_0000_0000_0000_0000 > u128::MAX) by (nonlinear_arith);
    }
    while high - low > 1
        invariant
            low < high <= 0x1_0000_0000_0000_0000,
            low * low <= n < high * high,
        decreases high - low,
    {
        let mid: u128 = low + (high - low) / 2;
        proof {
            lemma_product_bound(
                mid as int,
                mid as int,
                0xFFFF_FFFF_FFFF_FFFF,
                0xFFFF_FFFF_FFFF_FFFF,
            );
            assert(0xFFFF_FFFF_FFFF_FFFF * 0xFFFF_FFFF_FFFF_FFFF <= u128::MAX) by (nonlinear_arith);
        }
        if mid * mid <= n {
            low = mid;
        } else {
            high = mid;
        }
    }
    low
}

/// A number that lies strictly between two neighbouring squares is no square.
pub proof fn lemma_between_squares(s: int, n: int, k: int)
    requires
        0 <= s,
        s * s < n < (s + 1) * (s + 1),
    ensures
        k * k != n,
{
    if 0 <= k <= s {
        assert(k * k <= s * s) by (nonlinear_arith)
            requires
                0 <= k <= s,
        ;
    } else if k > s {
        assert(k * k >= (s + 1) * (s + 1)) by (nonlinear_arith)
            requires
                k >= s + 1,
                s >= 0,
        ;
    } else if -s <= k {
        assert(k * k <= s * s) by (nonlinear_arith)
            requires
                -s <= k <= 0,
        ;
    } else {
        assert(k * k >= (s + 1) * (s + 1)) by (nonlinear_arith)
            requires
                k <= -(s + 1),
                s >= 0,
        ;
    }
}

} // verus!
