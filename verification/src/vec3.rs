use vstd::prelude::*;
use crate::ratio::{lemma_product_bound, lemma_product_positive, Ratio};

verus! {

/// Three exact components. Used alike for positions, directions and colours.
#[derive(Clone, Copy, Debug, PartialEq, Eq, Structural)]
pub struct Vec3 {
    pub x: Ratio,
    pub y: Ratio,
    pub z: Ratio,
}

pub type Point3 = Vec3;

pub type Color = Vec3;

/// The vector `(1, 1, 1)`.
pub open spec fn ones() -> Vec3 {
    Vec3 {
        x: Ratio { num: 1, den: 1 },
        y: Ratio { num: 1, den: 1 },
        z: Ratio { num: 1, den: 1 },
    }
}

impl Default for Vec3 {
    /// The vector `(1, 1, 1)`.
    fn default() -> (v: Vec3)
        ensures
            v == ones(),
    {
        let one = Ratio { num: 1, den: 1 };
        Vec3 { x: one, y: one, z: one }
    }
}

impl Vec3 {
    /// Every component is a well-formed fraction.
    pub open spec fn wf(self) -> bool {
        self.x.wf() && self.y.wf() && self.z.wf()
    }

    /// The three components share the denominator `den`.
    pub open spec fn over(self, den: int) -> bool {
        self.x.den == den && self.y.den == den && self.z.den == den
    }

    /// The squared Euclidean length `x^2 + y^2 + z^2` is less than one. Stated
    /// for a vector whose components share a positive denominator `d`, where
    /// it reads `x.num^2 + y.num^2 + z.num^2 < d^2`.
    pub open spec fn inside_unit_sphere(self) -> bool {
        &&& self.x.den > 0
        &&& self.over(self.x.den as int)
        &&& self.x.num * self.x.num + self.y.num * self.y.num + self.z.num * self.z.num
            < self.x.den * self.x.den
    }

    /// The point lies in the plane `z = 0` and `x^2 + y^2` is less than one.
    /// Stated for `x` and `y` over a shared positive denominator `d`, where it
    /// reads `x.num^2 + y.num^2 < d^2`.
    pub open spec fn inside_unit_disk(self) -> bool {
        &&& self.x.den > 0
        &&& self.y.den == self.x.den
        &&& self.z.num == 0
        &&& self.x.num * self.x.num + self.y.num * self.y.num < self.x.den * self.x.den
    }

    /// The vector with the given components.
    pub fn new(x: Ratio, y: Ratio, z: Ratio) -> (v: Vec3)
        ensures
            v == (Vec3 { x, y, z }),
    {
        Vec3 { x, y, z }
    }
}

/// A vector of rational 3-space in homogeneous form: it stands for
/// `(x / w, y / w, z / w)`. This is the mathematical model of a `Vec3` whose
/// components share one denominator.
pub struct Vector {
    pub x: int,
    pub y: int,
    pub z: int,
    pub w: int,
}

impl Vector {
    /// The shared denominator is positive.
    pub open spec fn wf(self) -> bool {
        self.w > 0
    }

    /// The two stand for the same vector, whatever their denominators.
    pub open spec fn same_point(self, other: Vector) -> bool {
        &&& self.x * other.w == other.x * self.w
        &&& self.y * other.w == other.y * self.w
        &&& self.z * other.w == other.z * self.w
    }

    /// The sum, over the denominator `self.w * other.w`.
    pub open spec fn plus(self, other: Vector) -> Vector {
        Vector {
            x: self.x * other.w + other.x * self.w,
            y: self.y * other.w + other.y * self.w,
            z: self.z * other.w + other.z * self.w,
            w: self.w * other.w,
        }
    }

    /// The difference, over the denominator `self.w * other.w`.
    pub open spec fn minus(self, other: Vector) -> Vector {
        Vector {
            x: self.x * other.w - other.x * self.w,
            y: self.y * other.w - other.y * self.w,
            z: self.z * other.w - other.z * self.w,
            w: self.w * other.w,
        }
    }

    /// The opposite vector.
    pub open spec fn negated(self) -> Vector {
        Vector { x: -self.x, y: -self.y, z: -self.z, w: self.w }
    }

    /// The component-wise product, over the denominator `self.w * other.w`.
    pub open spec fn times(self, other: Vector) -> Vector {
        Vector {
            x: self.x * other.x,
            y: self.y * other.y,
            z: self.z * other.z,
            w: self.w * other.w,
        }
    }

    /// The vector times the scalar `num / den`, over the denominator
    /// `self.w * den`.
    pub open spec fn scaled(self, num: int, den: int) -> Vector {
        Vector { x: self.x * num, y: self.y * num, z: self.z * num, w: self.w * den }
    }

    /// The numerator of the dot product, whose denominator is
    /// `self.w * other.w`.
    pub open spec fn dot(self, other: Vector) -> int {
        self.x * other.x + self.y * other.y + self.z * other.z
    }

    /// The cross product, over the denominator `self.w * other.w`.
    pub open spec fn cross(self, other: Vector) -> Vector {
        Vector {
            x: self.y * other.z - self.z * other.y,
            y: self.z * other.x - self.x * other.z,
            z: self.x * other.y - self.y * other.x,
            w: self.w * other.w,
        }
    }

    /// The vector with the components `x / w`, `y / w`, `z / w`.
    pub open spec fn as_vec3(self) -> Vec3 {
        Vec3 {
            x: Ratio { num: self.x as i128, den: self.w as i128 },
            y: Ratio { num: self.y as i128, den: self.w as i128 },
            z: Ratio { num: self.z as i128, den: self.w as i128 },
        }
    }

    /// The vector has length one: `x^2 + y^2 + z^2 == w^2`.
    pub open spec fn is_unit(self) -> bool {
        self.dot(self) == self.w * self.w
    }

    /// The mirror image at a surface with normal `n`, `v - 2 (v . n) n`, over
    /// the denominator `self.w * n.w * n.w`.
    pub open spec fn reflect(self, n: Vector) -> Vector {
        Vector {
            x: n.w * n.w * self.x - 2 * self.dot(n) * n.x,
            y: n.w * n.w * self.y - 2 * self.dot(n) * n.y,
            z: n.w * n.w * self.z - 2 * self.dot(n) * n.z,
            w: self.w * (n.w * n.w),
        }
    }

    /// Every component is below `1 / 100000000` in absolute value.
    pub open spec fn near_zero(self) -> bool {
        &&& -self.w < 100000000 * self.x < self.w
        &&& -self.w < 100000000 * self.y < self.w
        &&& -self.w < 100000000 * self.z < self.w
    }
}

impl Vec3 {
    /// The components share one positive denominator.
    pub open spec fn is_uniform(self) -> bool {
        self.x.den > 0 && self.over(self.x.den as int)
    }

    /// The components share one positive denominator, and it and all
    /// numerators have magnitudes below `bound`.
    pub open spec fn within(self, bound: int) -> bool {
        &&& self.is_uniform()
        &&& self.x.den < bound
        &&& -bound < self.x.num < bound
        &&& -bound < self.y.num < bound
        &&& -bound < self.z.num < bound
    }

    /// The components share one positive denominator, and it and all
    /// numerators have magnitudes below `2^31`.
    pub open spec fn is_short(self) -> bool {
        self.within(0x8000_0000)
    }

    /// The vector in homogeneous form. Meant for a vector whose components
    /// share one denominator.
    pub open spec fn model(self) -> Vector {
        Vector {
            x: self.x.num as int,
            y: self.y.num as int,
            z: self.z.num as int,
            w: self.x.den as int,
        }
    }

    /// The vector with numerators `x`, `y`, `z` over the denominator `den`.
    pub fn over_denominator(x: i128, y: i128, z: i128, den: i128) -> (v: Vec3)
        requires
            den > 0,
        ensures
            v == (Vec3 {
                x: Ratio { num: x, den },
                y: Ratio { num: y, den },
                z: Ratio { num: z, den },
            }),
            v.is_uniform(),
            v.wf(),
            v.model() == (Vector { x: x as int, y: y as int, z: z as int, w: den as int }),
    {
        Vec3 { x: Ratio { num: x, den }, y: Ratio { num: y, den }, z: Ratio { num: z, den } }
    }

    /// The sum `self + b`.
    pub fn add(self, b: Vec3) -> (r: Vec3)
        requires
            self.is_short(),
            b.is_short(),
        ensures
            r.within(0x1_0000_0000_0000_0000),
            r.model() == self.model().plus(b.model()),
    {
        proof {
            lemma_short_products(self, b);
        }
        let den = self.x.den * b.x.den;
        Vec3::over_denominator(
            self.x.num * b.x.den + b.x.num * self.x.den,
            self.y.num * b.x.den + b.y.num * self.x.den,
            self.z.num * b.x.den + b.z.num * self.x.den,
            den,
        )
    }

    /// Replaces `self` by the sum `self + b`.
    pub fn add_assign(&mut self, b: Vec3)
        requires
            old(self).is_short(),
            b.is_short(),
        ensures
            final(self).is_uniform(),
            final(self).model() == old(self).model().plus(b.model()),
    {
        *self = self.add(b);
    }

    /// The difference `self - b`.
    pub fn sub(self, b: Vec3) -> (r: Vec3)
        requires
            self.is_short(),
            b.is_short(),
        ensures
            r.is_uniform(),
            r.model() == self.model().minus(b.model()),
    {
        proof {
            lemma_short_products(self, b);
        }
        let den = self.x.den * b.x.den;
        Vec3::over_denominator(
            self.x.num * b.x.den - b.x.num * self.x.den,
            self.y.num * b.x.den - b.y.num * self.x.den,
            self.z.num * b.x.den - b.z.num * self.x.den,
            den,
        )
    }

    /// The opposite vector `-self`.
    pub fn neg(self) -> (r: Vec3)
        requires
            self.is_short(),
        ensures
            r.is_short(),
            r.model() == self.model().negated(),
    {
        Vec3::over_denominator(-self.x.num, -self.y.num, -self.z.num, self.x.den)
    }

    /// The component-wise product `self * b`.
    pub fn mul(self, b: Vec3) -> (r: Vec3)
        requires
            self.is_short(),
            b.is_short(),
        ensures
            r.is_uniform(),
            r.model() == self.model().times(b.model()),
    {
        proof {
            lemma_short_products(self, b);
        }
        Vec3::over_denominator(
            self.x.num * b.x.num,
            self.y.num * b.y.num,
            self.z.num * b.z.num,
            self.x.den * b.x.den,
        )
    }

    /// The vector times the scalar `k`.
    pub fn scale(self, k: Ratio) -> (r: Vec3)
        requires
            self.is_short(),
            k.wf(),
            k.is_short(),
        ensures
            r.is_uniform(),
            r.model() == self.model().scaled(k.num as int, k.den as int),
    {
        proof {
            lemma_product_bound(self.x.num as int, k.num as int, 0x8000_0000, 0x8000_0000);
            lemma_product_bound(self.y.num as int, k.num as int, 0x8000_0000, 0x8000_0000);
            lemma_product_bound(self.z.num as int, k.num as int, 0x8000_0000, 0x8000_0000);
            lemma_product_bound(self.x.den as int, k.den as int, 0x8000_0000, 0x8000_0000);
            lemma_product_positive(self.x.den as int, k.den as int);
        }
        Vec3::over_denominator(
            self.x.num * k.num,
            self.y.num * k.num,
            self.z.num * k.num,
            self.x.den * k.den,
        )
    }

    /// The vector divided by the scalar `k`, which is not zero: the vector
    /// times `1 / k`, with the sign of `k` moved into the numerators.
    pub fn div(self, k: Ratio) -> (r: Vec3)
        requires
            self.is_short(),
            k.wf(),
            k.is_short(),
            k.num != 0,
        ensures
            r.is_uniform(),
            k.num > 0 ==> r.model() == self.model().scaled(k.den as int, k.num as int),
            k.num < 0 ==> r.model() == self.model().scaled(-k.den, -k.num),
    {
        let num: i128 = if k.num > 0 {
            k.den
        } else {
            -k.den
        };
        let den: i128 = if k.num > 0 {
            k.num
        } else {
            -k.num
        };
        proof {
            lemma_product_bound(self.x.num as int, num as int, 0x8000_0000, 0x8000_0000);
            lemma_product_bound(self.y.num as int, num as int, 0x8000_0000, 0x8000_0000);
            lemma_product_bound(self.z.num as int, num as int, 0x8000_0000, 0x8000_0000);
            lemma_product_bound(self.x.den as int, den as int, 0x8000_0000, 0x8000_0000);
            lemma_product_positive(self.x.den as int, den as int);
        }
        Vec3::over_denominator(
            self.x.num * num,
            self.y.num * num,
            self.z.num * num,
            self.x.den * den,
        )
    }

    /// The squared length `x^2 + y^2 + z^2`, over the square of the shared
    /// denominator.
    pub fn length_squared(self) -> (r: Ratio)
        requires
            self.is_short(),
        ensures
            r.num == self.model().dot(self.model()),
            r.den == self.x.den * self.x.den,
            r.wf(),
            r.num >= 0,
    {
        proof {
            lemma_short_products(self, self);
            assert(self.x.num * self.x.num >= 0 && self.y.num * self.y.num >= 0 && self.z.num
                * self.z.num >= 0) by (nonlinear_arith);
        }
        Ratio {
            num: self.x.num * self.x.num + self.y.num * self.y.num + self.z.num * self.z.num,
            den: self.x.den * self.x.den,
        }
    }
}

/// The products of the components of two short vectors fit in 63 bits, and
/// the product of their denominators is positive.
pub proof fn lemma_short_products(a: Vec3, b: Vec3)
    requires
        a.is_short(),
        b.is_short(),
    ensures
        -0x4000_0000_0000_0000 <= a.x.num * b.x.num <= 0x4000_0000_0000_0000,
        -0x4000_0000_0000_0000 <= a.x.num * b.y.num <= 0x4000_0000_0000_0000,
        -0x4000_0000_0000_0000 <= a.x.num * b.z.num <= 0x4000_0000_0000_0000,
        -0x4000_0000_0000_0000 <= a.y.num * b.x.num <= 0x4000_0000_0000_0000,
        -0x4000_0000_0000_0000 <= a.y.num * b.y.num <= 0x4000_0000_0000_0000,
        -0x4000_0000_0000_0000 <= a.y.num * b.z.num <= 0x4000_0000_0000_0000,
        -0x4000_0000_0000_0000 <= a.z.num * b.x.num <= 0x4000_0000_0000_0000,
        -0x4000_0000_0000_0000 <= a.z.num * b.y.num <= 0x4000_0000_0000_0000,
        -0x4000_0000_0000_0000 <= a.z.num * b.z.num <= 0x4000_0000_0000_0000,
        -0x4000_0000_0000_0000 <= a.x.num * b.x.den <= 0x4000_0000_0000_0000,
        -0x4000_0000_0000_0000 <= a.y.num * b.x.den <= 0x4000_0000_0000_0000,
        -0x4000_0000_0000_0000 <= a.z.num * b.x.den <= 0x4000_0000_0000_0000,
        -0x4000_0000_0000_0000 <= b.x.num * a.x.den <= 0x4000_0000_0000_0000,
        -0x4000_0000_0000_0000 <= b.y.num * a.x.den <= 0x4000_0000_0000_0000,
        -0x4000_0000_0000_0000 <= b.z.num * a.x.den <= 0x4000_0000_0000_0000,
        0 < a.x.den * b.x.den <= 0x4000_0000_0000_0000,
{
    lemma_product_bound(a.x.num as int, b.x.num as int, 0x8000_0000, 0x8000_0000);
    lemma_product_bound(a.x.num as int, b.y.num as int, 0x8000_0000, 0x8000_0000);
    lemma_product_bound(a.x.num as int, b.z.num as int, 0x8000_0000, 0x8000_0000);
    lemma_product_bound(a.y.num as int, b.x.num as int, 0x8000_0000, 0x8000_0000);
    lemma_product_bound(a.y.num as int, b.y.num as int, 0x8000_0000, 0x8000_0000);
    lemma_product_bound(a.y.num as int, b.z.num as int, 0x8000_0000, 0x8000_0000);
    lemma_product_bound(a.z.num as int, b.x.num as int, 0x8000_0000, 0x8000_0000);
    lemma_product_bound(a.z.num as int, b.y.num as int, 0x8000_0000, 0x8000_0000);
    lemma_product_bound(a.z.num as int, b.z.num as int, 0x8000_0000, 0x8000_0000);
    lemma_product_bound(a.x.num as int, b.x.den as int, 0x8000_0000, 0x8000_0000);
    lemma_product_bound(a.y.num as int, b.x.den as int, 0x8000_0000, 0x8000_0000);
    lemma_product_bound(a.z.num as int, b.x.den as int, 0x8000_0000, 0x8000_0000);
    lemma_product_bound(b.x.num as int, a.x.den as int, 0x8000_0000, 0x8000_0000);
    lemma_product_bound(b.y.num as int, a.x.den as int, 0x8000_0000, 0x8000_0000);
    lemma_product_bound(b.z.num as int, a.x.den as int, 0x8000_0000, 0x8000_0000);
    lemma_product_bound(a.x.den as int, b.x.den as int, 0x8000_0000, 0x8000_0000);
    lemma_product_positive(a.x.den as int, b.x.den as int);
}

/// The dot product `a . b`.
pub fn dot(a: Vec3, b: Vec3) -> (r: Ratio)
    requires
        a.is_short(),
        b.is_short(),
    ensures
        r.num == a.model().dot(b.model()),
        r.den == a.x.den * b.x.den,
        r.wf(),
{
    proof {
        lemma_short_products(a, b);
    }
    Ratio {
        num: a.x.num * b.x.num + a.y.num * b.y.num + a.z.num * b.z.num,
        den: a.x.den * b.x.den,
    }
}

/// The cross product `a x b`.
pub fn cross(a: Vec3, b: Vec3) -> (r: Vec3)
    requires
        a.is_short(),
        b.is_short(),
    ensures
        r.is_uniform(),
        r.model() == a.model().cross(b.model()),
{
    proof {
        lemma_short_products(a, b);
    }
    Vec3::over_denominator(
        a.y.num * b.z.num - a.z.num * b.y.num,
        a.z.num * b.x.num - a.x.num * b.z.num,
        a.x.num * b.y.num - a.y.num * b.x.num,
        a.x.den * b.x.den,
    )
}

/// Whether every component is below `1 / 100000000` in absolute value.
pub fn near_zero(v: Vec3) -> (b: bool)
    requires
        v.within(0x1_0000_0000_0000_0000),
    ensures
        b == v.model().near_zero(),
{
    let s: i128 = 100000000;
    let den = v.x.den;
    (-den < s * v.x.num && s * v.x.num < den) && (-den < s * v.y.num && s * v.y.num < den) && (-den
        < s * v.z.num && s * v.z.num < den)
}

/// The mirror image of `v` at a surface with normal `n`: `v - 2 (v . n) n`.
pub fn reflect(v: Vec3, n: Vec3) -> (r: Vec3)
    requires
        v.is_short(),
        n.is_short(),
    ensures
        r.is_uniform(),
        r.model() == v.model().reflect(n.model()),
{
    proof {
        lemma_short_products(v, n);
        lemma_short_products(n, n);
    }
    let d: i128 = 2 * (v.x.num * n.x.num + v.y.num * n.y.num + v.z.num * n.z.num);
    let nn: i128 = n.x.den * n.x.den;
    assert(d == 2 * v.model().dot(n.model()));
    proof {
        let big: int = 0x4_0000_0000_0000_0000;
        lemma_product_bound(nn as int, v.x.num as int, big, 0x8000_0000);
        lemma_product_bound(nn as int, v.y.num as int, big, 0x8000_0000);
        lemma_product_bound(nn as int, v.z.num as int, big, 0x8000_0000);
        lemma_product_bound(d as int, n.x.num as int, big, 0x8000_0000);
        lemma_product_bound(d as int, n.y.num as int, big, 0x8000_0000);
        lemma_product_bound(d as int, n.z.num as int, big, 0x8000_0000);
        lemma_product_bound(v.x.den as int, nn as int, 0x8000_0000, big);
        lemma_product_positive(v.x.den as int, nn as int);
    }
    Vec3::over_denominator(
        nn * v.x.num - d * n.x.num,
        nn * v.y.num - d * n.y.num,
        nn * v.z.num - d * n.z.num,
        v.x.den * nn,
    )
}

/// Reflecting twice at the same surface gives the vector back, where the
/// normal has length one: `reflect(reflect(v, n), n)` and `v` are the same
/// vector.
pub proof fn lemma_reflect_involution(v: Vector, n: Vector)
    requires
        v.wf(),
        n.wf(),
        n.is_unit(),
    ensures
        v.reflect(n).reflect(n).wf(),
        v.reflect(n).reflect(n).same_point(v),
{
    let s = n.w * n.w;
    let d = v.dot(n);
    let once = v.reflect(n);
    let twice = once.reflect(n);
    assert(s > 0) by (nonlinear_arith)
        requires
            s == n.w * n.w,
            n.w > 0,
    ;
    assert(once.x * n.x == s * (v.x * n.x) - 2 * d * (n.x * n.x)) by (nonlinear_arith)
        requires
            once.x == s * v.x - 2 * d * n.x,
    ;
    assert(once.y * n.y == s * (v.y * n.y) - 2 * d * (n.y * n.y)) by (nonlinear_arith)
        requires
            once.y == s * v.y - 2 * d * n.y,
    ;
    assert(once.z * n.z == s * (v.z * n.z) - 2 * d * (n.z * n.z)) by (nonlinear_arith)
        requires
            once.z == s * v.z - 2 * d * n.z,
    ;
    let back = once.dot(n);
    assert(back == -(s * d)) by (nonlinear_arith)
        requires
            back == (s * (v.x * n.x) - 2 * d * (n.x * n.x)) + (s * (v.y * n.y) - 2 * d * (n.y
                * n.y)) + (s * (v.z * n.z) - 2 * d * (n.z * n.z)),
            d == v.x * n.x + v.y * n.y + v.z * n.z,
            n.x * n.x + n.y * n.y + n.z * n.z == s,
    ;
    lemma_reflect_component(v.x, n.x, s, d, back, v.w);
    lemma_reflect_component(v.y, n.y, s, d, back, v.w);
    lemma_reflect_component(v.z, n.z, s, d, back, v.w);
    assert(twice.w == v.w * s * s && twice.w > 0) by (nonlinear_arith)
        requires
            twice.w == (v.w * s) * s,
            v.w > 0,
            s > 0,
    ;
}

/// A ray that strikes a surface head-on comes straight back: the mirror image
/// of `-n` at a surface with the unit normal `n` is `n`.
pub proof fn lemma_reflect_head_on(n: Vector)
    requires
        n.wf(),
        n.is_unit(),
    ensures
        n.negated().reflect(n).wf(),
        n.negated().reflect(n).same_point(n),
{
    let s = n.w * n.w;
    let d = n.negated().dot(n);
    let r = n.negated().reflect(n);
    assert(s > 0) by (nonlinear_arith)
        requires
            s == n.w * n.w,
            n.w > 0,
    ;
    assert(d == -s) by (nonlinear_arith)
        requires
            d == (-n.x) * n.x + (-n.y) * n.y + (-n.z) * n.z,
            n.x * n.x + n.y * n.y + n.z * n.z == s,
    ;
    assert(r.w == n.w * s && r.w > 0) by (nonlinear_arith)
        requires
            r.w == n.w * s,
            n.w > 0,
            s > 0,
    ;
    lemma_head_on_component(n.x, s, d, n.w);
    lemma_head_on_component(n.y, s, d, n.w);
    lemma_head_on_component(n.z, s, d, n.w);
}

/// One component of a head-on reflection: with `d == -s`, the numerator
/// `s * (-c) - 2 * d * c` is `s * c`.
proof fn lemma_head_on_component(c: int, s: int, d: int, w: int)
    requires
        d == -s,
    ensures
        (s * (-c) - 2 * d * c) * w == c * (w * s),
{
    assert(s * (-c) - 2 * d * c == s * c) by (nonlinear_arith)
        requires
            d == -s,
    ;
    assert((s * c) * w == c * (w * s)) by (nonlinear_arith);
}

/// Scaling a vector of length one by `k` gives a vector of length `|k|`: the
/// squared length of `u * (num / den)` is `num^2 / den^2`.
pub proof fn lemma_scaled_unit_length(u: Vector, num: int, den: int)
    requires
        u.wf(),
        u.is_unit(),
        den > 0,
    ensures
        u.scaled(num, den).wf(),
        u.scaled(num, den).dot(u.scaled(num, den)) * (den * den) == (num * num) * (u.scaled(
            num,
            den,
        ).w * u.scaled(num, den).w),
{
    let r = u.scaled(num, den);
    let s = u.w * u.w;
    assert(r.w > 0) by (nonlinear_arith)
        requires
            r.w == u.w * den,
            u.w > 0,
            den > 0,
    ;
    let k = num * num;
    assert((u.x * num) * (u.x * num) == k * (u.x * u.x)) by (nonlinear_arith)
        requires
            k == num * num,
    ;
    assert((u.y * num) * (u.y * num) == k * (u.y * u.y)) by (nonlinear_arith)
        requires
            k == num * num,
    ;
    assert((u.z * num) * (u.z * num) == k * (u.z * u.z)) by (nonlinear_arith)
        requires
            k == num * num,
    ;
    assert(k * (u.x * u.x) + k * (u.y * u.y) + k * (u.z * u.z) == k * s) by (nonlinear_arith)
        requires
            u.x * u.x + u.y * u.y + u.z * u.z == s,
    ;
    assert(r.dot(r) == (num * num) * s);
    assert(r.w * r.w == s * (den * den)) by (nonlinear_arith)
        requires
            r.w == u.w * den,
            s == u.w * u.w,
    ;
    assert(((num * num) * s) * (den * den) == (num * num) * (s * (den * den)))
        by (nonlinear_arith);
}

/// A vector of length one is not near zero.
pub proof fn lemma_unit_not_near_zero(u: Vector)
    requires
        u.wf(),
        u.is_unit(),
    ensures
        !u.near_zero(),
{
    if u.near_zero() {
        let s: int = 100000000;
        lemma_small_square(u.x, u.w, s);
        lemma_small_square(u.y, u.w, s);
        lemma_small_square(u.z, u.w, s);
        let ww = u.w * u.w;
        assert(ww > 0) by (nonlinear_arith)
            requires
                ww == u.w * u.w,
                u.w > 0,
        ;
        assert((s * s) * (u.x * u.x + u.y * u.y + u.z * u.z) == (s * s) * (u.x * u.x) + (s * s)
            * (u.y * u.y) + (s * s) * (u.z * u.z)) by (nonlinear_arith);
        assert((s * s) * ww < 3 * ww);
        assert(false) by (nonlinear_arith)
            requires
                (s * s) * ww < 3 * ww,
                ww > 0,
                s == 100000000,
        ;
    }
}

/// A component below `w / s` in absolute value has a square below
/// `w^2 / s^2`.
proof fn lemma_small_square(c: int, w: int, s: int)
    requires
        s > 0,
        -w < s * c < w,
    ensures
        (s * s) * (c * c) < w * w,
{
    assert((s * c) * (s * c) < w * w) by (nonlinear_arith)
        requires
            -w < s * c < w,
    ;
    assert((s * c) * (s * c) == (s * s) * (c * c)) by (nonlinear_arith);
}

/// One component of a double reflection: with `back == -(s * d)`, the
/// numerator `s * (s * c - 2 * d * m) - 2 * back * m` is `s * s * c`.
proof fn lemma_reflect_component(c: int, m: int, s: int, d: int, back: int, w: int)
    requires
        back == -(s * d),
    ensures
        (s * (s * c - 2 * d * m) - 2 * back * m) * w == c * (w * s * s),
{
    assert(s * (s * c - 2 * d * m) - 2 * back * m == s * s * c) by (nonlinear_arith)
        requires
            back == -(s * d),
    ;
    assert((s * s * c) * w == c * (w * s * s)) by (nonlinear_arith);
}

} // verus!
