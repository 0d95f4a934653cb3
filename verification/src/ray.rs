use vstd::prelude::*;
use crate::ratio::{lemma_product_bound, lemma_product_positive, Ratio};
use crate::vec3::{ones, Point3, Vec3};

verus! {

/// A half-line: the points `origin + direction * t` for `t >= 0`.
#[derive(Clone, Copy, Debug, PartialEq, Eq, Structural)]
pub struct Ray {
    pub origin: Point3,
    pub direction: Vec3,
}

impl Default for Ray {
    /// The ray from `(1, 1, 1)` in the direction `(1, 1, 1)`.
    fn default() -> (r: Ray)
        ensures
            r == (Ray { origin: ones(), direction: ones() }),
    {
        Ray { origin: Vec3::default(), direction: Vec3::default() }
    }
}

impl Ray {
    /// Origin and direction are short vectors.
    pub open spec fn is_short(self) -> bool {
        self.origin.is_short() && self.direction.is_short()
    }

    /// Origin and direction are vectors with magnitudes below `2^12`.
    pub open spec fn is_small(self) -> bool {
        self.origin.within(0x1000) && self.direction.within(0x1000)
    }

    /// The point at parameter `t`: `origin + direction * t`.
    pub fn at(self, t: Ratio) -> (p: Point3)
        requires
            self.is_short(),
            t.wf(),
            t.is_short(),
        ensures
            p.is_uniform(),
            p.model() == self.origin.model().plus(
                self.direction.model().scaled(t.num as int, t.den as int),
            ),
    {
        let o = self.origin;
        let d = self.direction;
        proof {
            lemma_product_bound(d.x.den as int, t.den as int, 0x8000_0000, 0x8000_0000);
            lemma_product_positive(d.x.den as int, t.den as int);
            lemma_product_bound(d.x.num as int, t.num as int, 0x8000_0000, 0x8000_0000);
            lemma_product_bound(d.y.num as int, t.num as int, 0x8000_0000, 0x8000_0000);
            lemma_product_bound(d.z.num as int, t.num as int, 0x8000_0000, 0x8000_0000);
        }
        let w: i128 = d.x.den * t.den;
        let sx: i128 = d.x.num * t.num;
        let sy: i128 = d.y.num * t.num;
        let sz: i128 = d.z.num * t.num;
        proof {
            let big: int = 0x4000_0000_0000_0000;
            lemma_product_bound(o.x.num as int, w as int, 0x8000_0000, big);
            lemma_product_bound(o.y.num as int, w as int, 0x8000_0000, big);
            lemma_product_bound(o.z.num as int, w as int, 0x8000_0000, big);
            lemma_product_bound(sx as int, o.x.den as int, big, 0x8000_0000);
            lemma_product_bound(sy as int, o.x.den as int, big, 0x8000_0000);
            lemma_product_bound(sz as int, o.x.den as int, big, 0x8000_0000);
            lemma_product_bound(o.x.den as int, w as int, 0x8000_0000, big);
            lemma_product_positive(o.x.den as int, w as int);
        }
        Vec3::over_denominator(
            o.x.num * w + sx * o.x.den,
            o.y.num * w + sy * o.x.den,
            o.z.num * w + sz * o.x.den,
            o.x.den * w,
        )
    }
}

} // verus!
