use vstd::prelude::*;

verus! {

/// An exact fraction `num / den`. A well-formed fraction has a positive
/// denominator; it need not be in lowest terms. Statements about the value of
/// a fraction are made by cross-multiplication, so they hold of the rational
/// number and not of its particular representation.
#[derive(Clone, Copy, Debug, PartialEq, Eq, Structural)]
pub struct Ratio {
    pub num: i128,
    pub den: i128,
}

impl Ratio {
    /// The denominator is positive.
    pub open spec fn wf(self) -> bool {
        self.den > 0
    }

    /// The fraction turned upside down, `den / num`.
    pub open spec fn inverse(self) -> Ratio {
        Ratio { num: self.den, den: self.num }
    }

    /// `self < other` as rational numbers (both well-formed).
    pub open spec fn less_than(self, other: Ratio) -> bool {
        self.num * other.den < other.num * self.den
    }

    /// The value is greater than zero.
    pub open spec fn is_positive(self) -> bool {
        self.num > 0
    }

    /// The value lies in the half-open interval `[0, 1)`.
    pub open spec fn in_unit_interval(self) -> bool {
        0 <= self.num < self.den
    }

    /// The value lies in the closed interval `[0, 1]`.
    pub open spec fn in_closed_unit_interval(self) -> bool {
        0 <= self.num <= self.den
    }

    /// The denominator is positive, and it and the numerator have magnitudes
    /// below `bound`.
    pub open spec fn within(self, bound: int) -> bool {
        &&& -bound < self.num < bound
        &&& 0 < self.den < bound
    }

    /// The denominator is positive, and it and the numerator have magnitudes
    /// below `2^31`.
    pub open spec fn is_short(self) -> bool {
        self.within(0x8000_0000)
    }

    /// The point `min + (max - min) * t`, written over the common denominator
    /// `min.den * max.den * t.den`.
    pub open spec fn interpolate(min: Ratio, max: Ratio, t: Ratio) -> Ratio {
        Ratio {
            num: (min.num * max.den * t.den + (max.num * min.den - min.num * max.den) * t.num)
                as i128,
            den: (min.den * max.den * t.den) as i128,
        }
    }

    /// The fraction `num / den`.
    pub fn new(num: i128, den: i128) -> (r: Ratio)
        requires
            den > 0,
        ensures
            r == (Ratio { num, den }),
            r.wf(),
    {
        Ratio { num, den }
    }

    /// The whole number `n`.
    pub fn from_integer(n: i64) -> (r: Ratio)
        ensures
            r == (Ratio { num: n as i128, den: 1 }),
            r.wf(),
    {
        Ratio { num: n as i128, den: 1 }
    }
}

/// Interpolating between `min` and `max` by a fraction of `[0, 1)` stays
/// between them: the result is at least `min` and at most `max`, and below
/// `max` where `min` is below `max`.
pub proof fn lemma_interpolate_within(min: Ratio, max: Ratio, t: Ratio)
    requires
        min.wf(),
        max.wf(),
        min.is_short(),
        max.is_short(),
        t.in_unit_interval(),
        t.den <= 0x20_0000_0000_0000,
        !max.less_than(min),
    ensures
        Ratio::interpolate(min, max, t).wf(),
        !Ratio::interpolate(min, max, t).less_than(min),
        !max.less_than(Ratio::interpolate(min, max, t)),
        min.less_than(max) ==> Ratio::interpolate(min, max, t).less_than(max),
{
    let a = min.num as int;
    let b = min.den as int;
    let c = max.num as int;
    let d = max.den as int;
    let n = t.num as int;
    let m = t.den as int;
    let r = Ratio::interpolate(min, max, t);
    lemma_product_bound(a, d, 0x8000_0000, 0x8000_0000);
    lemma_product_bound(c, b, 0x8000_0000, 0x8000_0000);
    lemma_product_bound(b, d, 0x8000_0000, 0x8000_0000);
    lemma_product_positive(b, d);
    lemma_product_bound(a * d, m, 0x4000_0000_0000_0000, 0x20_0000_0000_0000);
    lemma_product_bound(c * b - a * d, n, 0x8000_0000_0000_0000, 0x20_0000_0000_0000);
    lemma_product_bound(b * d, m, 0x4000_0000_0000_0000, 0x20_0000_0000_0000);
    lemma_product_positive(b * d, m);
    assert(r.num == a * d * m + (c * b - a * d) * n);
    assert(r.den == b * d * m);
    let gap = c * b - a * d;
    assert(gap >= 0);
    let p = d * m;
    let gn = gap * n;
    assert(a * d * m == a * p && b * d * m == b * p && gap * p == gap * m * d) by (nonlinear_arith)
        requires
            p == d * m,
    ;
    assert((a * p + gn) * b - a * (b * p) == gn * b) by (nonlinear_arith);
    assert(c * (b * p) - (a * p + gn) * d == (c * b - a * d) * p - gn * d) by (nonlinear_arith);
    assert(gap * (m - n) * d == gap * m * d - gn * d) by (nonlinear_arith)
        requires
            gn == gap * n,
    ;
    assert(r.num * b - a * r.den == gap * n * b);
    assert(c * r.den - r.num * d == gap * (m - n) * d);
    assert(gap * n * b >= 0 && gap * (m - n) * d >= 0 && (gap > 0 ==> gap * (m - n) * d > 0))
        by (nonlinear_arith)
        requires
            gap >= 0,
            n >= 0,
            m - n > 0,
            b > 0,
            d > 0,
    ;
}

/// No fraction is less than itself.
pub proof fn lemma_order_reflexive(a: Ratio)
    ensures
        !a.less_than(a),
{
}

/// Of two fractions at most one is less than the other.
pub proof fn lemma_order_asymmetric(a: Ratio, b: Ratio)
    requires
        a.less_than(b),
    ensures
        !b.less_than(a),
{
}

/// The order of fractions is transitive in this form: if `a` is not less
/// than `b` and `b` is not less than `c`, then `a` is not less than `c`.
pub proof fn lemma_order_chain(a: Ratio, b: Ratio, c: Ratio)
    requires
        a.wf(),
        b.wf(),
        c.wf(),
        !a.less_than(b),
        !b.less_than(c),
    ensures
        !a.less_than(c),
{
    // a.num * b.den >= b.num * a.den and b.num * c.den >= c.num * b.den
    assert((a.num * c.den) * b.den >= (c.num * a.den) * b.den) by (nonlinear_arith)
        requires
            a.num * b.den >= b.num * a.den,
            b.num * c.den >= c.num * b.den,
            a.den > 0,
            b.den > 0,
            c.den > 0,
    ;
    assert(a.num * c.den >= c.num * a.den) by (nonlinear_arith)
        requires
            (a.num * c.den) * b.den >= (c.num * a.den) * b.den,
            b.den > 0,
    ;
}

/// The product of two bounded integers is bounded by the product of the
/// bounds.
pub proof fn lemma_product_bound(a: int, b: int, x: int, y: int)
    requires
        -x <= a <= x,
        -y <= b <= y,
    ensures
        -(x * y) <= a * b <= x * y,
{
    assert(-(x * y) <= a * b <= x * y) by (nonlinear_arith)
        requires
            -x <= a <= x,
            -y <= b <= y,
    ;
}

/// The product of two positive integers is positive.
pub proof fn lemma_product_positive(a: int, b: int)
    requires
        a > 0,
        b > 0,
    ensures
        a * b > 0,
{
    assert(a * b > 0) by (nonlinear_arith)
        requires
            a > 0,
            b > 0,
    ;
}

} // verus!
