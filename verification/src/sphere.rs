use vstd::prelude::*;
use crate::material::Material;
use crate::hit_record::HitRecord;
use crate::ratio::{lemma_order_chain, lemma_product_bound, lemma_product_positive, Ratio};
use crate::utils::{integer_sqrt, lemma_between_squares};
use crate::ray::Ray;
use crate::vec3::{Point3, Vec3, Vector};

verus! {

/// A sphere with its surface model.
#[derive(Clone, Copy, Debug, PartialEq, Eq, Structural)]
pub struct Sphere {
    pub center: Point3,
    pub radius: Ratio,
    pub material: Material,
}

impl Sphere {
    /// The radius is positive, and centre and material are well-formed.
    pub open spec fn wf(self) -> bool {
        &&& self.center.wf()
        &&& self.radius.wf()
        &&& self.radius.is_positive()
        &&& self.material.wf()
    }

    /// The radius is positive, and centre and radius have magnitudes below
    /// `2^12`.
    pub open spec fn is_small(self) -> bool {
        &&& self.center.within(0x1000)
        &&& 0 < self.radius.num < 0x1000
        &&& 0 < self.radius.den < 0x1000
    }

    /// The vector from the centre to the origin of the ray, `O - C`.
    pub open spec fn offset(self, r: Ray) -> Vector {
        r.origin.model().minus(self.center.model())
    }

    /// The coefficient `a = |D|^2` of the intersection equation
    /// `a t^2 + 2 half_b t + c = 0`, over the denominator `D.w^2`.
    pub open spec fn quadratic_a(self, r: Ray) -> int {
        r.direction.model().dot(r.direction.model())
    }

    /// The coefficient `half_b = (O - C) . D` of the intersection equation,
    /// over the denominator `(O - C).w * D.w`.
    pub open spec fn quadratic_half_b(self, r: Ray) -> int {
        self.offset(r).dot(r.direction.model())
    }

    /// The coefficient `c = |O - C|^2 - radius^2` of the intersection
    /// equation, over the denominator `((O - C).w * radius.den)^2`.
    pub open spec fn quadratic_c(self, r: Ray) -> int {
        self.offset(r).dot(self.offset(r)) * (self.radius.den * self.radius.den) - (self.radius.num
            * self.radius.num) * (self.offset(r).w * self.offset(r).w)
    }

    /// The numerator of the discriminant `half_b^2 - a c`.
    pub open spec fn discriminant_num(self, r: Ray) -> int {
        self.quadratic_half_b(r) * self.quadratic_half_b(r) * (self.radius.den * self.radius.den)
            - self.quadratic_a(r) * self.quadratic_c(r)
    }

    /// The denominator of the discriminant, the square of
    /// `(O - C).w * D.w * radius.den`.
    pub open spec fn discriminant_den(self, r: Ray) -> int {
        (self.offset(r).w * r.direction.model().w * self.radius.den) * (self.offset(r).w
            * r.direction.model().w * self.radius.den)
    }

    /// The numerator of the root `(-half_b + sign * sqrt(discriminant)) / a`,
    /// where `root / ((O - C).w * D.w * radius.den)` is the square root of the
    /// discriminant.
    pub open spec fn root_num(self, r: Ray, root: int, sign: int) -> int {
        (-(self.quadratic_half_b(r) * self.radius.den) + sign * root) * r.direction.model().w
    }

    /// The denominator of both roots, `(O - C).w * radius.den * a`.
    pub open spec fn root_den(self, r: Ray) -> int {
        self.offset(r).w * self.radius.den * self.quadratic_a(r)
    }

    /// Whether the radius is positive and centre and material are well-formed.
    pub fn is_wf(&self) -> (b: bool)
        ensures
            b == self.wf(),
    {
        let material_ok = match self.material {
            Material::Lambertian(m) => m.albedo.x.den > 0 && m.albedo.y.den > 0 && m.albedo.z.den
                > 0,
            Material::Metal(m) => m.albedo.x.den > 0 && m.albedo.y.den > 0 && m.albedo.z.den > 0
                && m.fuzz.den > 0 && 0 <= m.fuzz.num && m.fuzz.num <= m.fuzz.den,
            Material::Dielectric(m) => m.ir.den > 0 && m.ir.num > 0,
        };
        self.center.x.den > 0 && self.center.y.den > 0 && self.center.z.den > 0 && self.radius.den
            > 0 && self.radius.num > 0 && material_ok
    }
}

/// The terms of the intersection equation of a small sphere and a small ray.
struct Terms {
    a: i128,
    half_b: i128,
    c: i128,
    offset_w: i128,
}

impl Sphere {
    /// Computes the terms of the intersection equation.
    fn terms(&self, r: Ray) -> (t: Terms)
        requires
            self.is_small(),
            r.is_small(),
        ensures
            t.a == self.quadratic_a(r),
            t.half_b == self.quadratic_half_b(r),
            t.c == self.quadratic_c(r),
            t.offset_w == self.offset(r).w,
            0 <= t.a <= 3 * 0x100_0000,
            -6 * 0x10_0000_0000 <= t.half_b <= 6 * 0x10_0000_0000,
            -13 * 0x1_0000_0000_0000_0000_00 <= t.c <= 13 * 0x1_0000_0000_0000_0000_00,
            0 < t.offset_w <= 0x100_0000,
    {
        let o = r.origin;
        let d = r.direction;
        let c = self.center;
        let ow = o.x.den;
        let cw = c.x.den;
        let rw = self.radius.den;
        let rn = self.radius.num;
        proof {
            let b: int = 0x1000;
            lemma_product_bound(o.x.num as int, cw as int, b, b);
            lemma_product_bound(o.y.num as int, cw as int, b, b);
            lemma_product_bound(o.z.num as int, cw as int, b, b);
            lemma_product_bound(c.x.num as int, ow as int, b, b);
            lemma_product_bound(c.y.num as int, ow as int, b, b);
            lemma_product_bound(c.z.num as int, ow as int, b, b);
            lemma_product_bound(ow as int, cw as int, b, b);
            lemma_product_positive(ow as int, cw as int);
            lemma_product_bound(d.x.num as int, d.x.num as int, b, b);
            lemma_product_bound(d.y.num as int, d.y.num as int, b, b);
            lemma_product_bound(d.z.num as int, d.z.num as int, b, b);
            lemma_product_bound(rw as int, rw as int, b, b);
            lemma_product_bound(rn as int, rn as int, b, b);
            assert(d.x.num * d.x.num >= 0 && d.y.num * d.y.num >= 0 && d.z.num * d.z.num >= 0)
                by (nonlinear_arith);
        }
        let ocx: i128 = o.x.num * cw - c.x.num * ow;
        let ocy: i128 = o.y.num * cw - c.y.num * ow;
        let ocz: i128 = o.z.num * cw - c.z.num * ow;
        let ocw: i128 = ow * cw;
        let a: i128 = d.x.num * d.x.num + d.y.num * d.y.num + d.z.num * d.z.num;
        proof {
            let b: int = 0x1000;
            let e24: int = 0x100_0000;
            let bb: int = 2 * e24;
            lemma_product_bound(ocx as int, d.x.num as int, bb, b);
            lemma_product_bound(ocy as int, d.y.num as int, bb, b);
            lemma_product_bound(ocz as int, d.z.num as int, bb, b);
            lemma_product_bound(ocx as int, ocx as int, bb, bb);
            lemma_product_bound(ocy as int, ocy as int, bb, bb);
            lemma_product_bound(ocz as int, ocz as int, bb, bb);
            lemma_product_bound(ocw as int, ocw as int, e24, e24);
        }
        let half_b: i128 = ocx * d.x.num + ocy * d.y.num + ocz * d.z.num;
        let cc: i128 = ocx * ocx + ocy * ocy + ocz * ocz;
        let rw2: i128 = rw * rw;
        let rn2: i128 = rn * rn;
        let ocw2: i128 = ocw * ocw;
        proof {
            let e24: int = 0x100_0000;
            let e48: int = 0x1_0000_0000_0000;
            lemma_product_bound(cc as int, rw2 as int, 12 * e48, e24);
            lemma_product_bound(rn2 as int, ocw2 as int, e24, e48);
        }
        Terms { a, half_b, c: cc * rw2 - rn2 * ocw2, offset_w: ocw }
    }

    /// The discriminant `half_b^2 - a c` of the intersection equation
    /// `|O + t D - C|^2 = radius^2`. The ray misses the sphere, and the line
    /// through it does, where the discriminant is negative.
    pub fn discriminant(&self, r: Ray) -> (disc: Ratio)
        requires
            self.is_small(),
            r.is_small(),
        ensures
            disc.num == self.discriminant_num(r),
            disc.den == self.discriminant_den(r),
            disc.wf(),
            -discriminant_limit() <= disc.num <= discriminant_limit(),
    {
        let t = self.terms(r);
        let rw = self.radius.den;
        let dw = r.direction.x.den;
        proof {
            let b: int = 0x1000;
            let e24: int = 0x100_0000;
            let e36: int = 0x10_0000_0000;
            let e72: int = 0x1_0000_0000_0000_0000_00;
            lemma_product_bound(rw as int, rw as int, b, b);
            lemma_product_bound(t.half_b as int, t.half_b as int, 6 * e36, 6 * e36);
            lemma_product_bound(t.half_b * t.half_b, rw * rw, 36 * e72, e24);
            lemma_product_bound(t.a as int, t.c as int, 3 * e24, 13 * e72);
            lemma_product_bound(t.offset_w as int, dw as int, 0x100_0000, b);
            lemma_product_positive(t.offset_w as int, dw as int);
            lemma_product_bound(t.offset_w * dw, rw as int, 0x10_0000_0000, b);
            lemma_product_positive(t.offset_w * dw, rw as int);
            lemma_product_bound(
                t.offset_w * dw * rw,
                t.offset_w * dw * rw,
                0x1_0000_0000_0000,
                0x1_0000_0000_0000,
            );
            lemma_product_positive(t.offset_w * dw * rw, t.offset_w * dw * rw);
        }
        let q: i128 = t.offset_w * dw * rw;
        Ratio { num: t.half_b * t.half_b * (rw * rw) - t.a * t.c, den: q * q }
    }
}

/// The two roots of the intersection equation, `near <= far`.
#[derive(Clone, Copy, Debug, PartialEq, Eq, Structural)]
pub struct Roots {
    pub near: Ratio,
    pub far: Ratio,
}

/// The largest numerator of a root of a small sphere and a small ray,
/// `15 * 2^60`.
pub open spec fn root_num_limit() -> int {
    15 * 0x1000_0000_0000_0000int
}

/// The largest denominator of a root of a small sphere and a small ray,
/// `3 * 2^60`.
pub open spec fn root_den_limit() -> int {
    3 * 0x1000_0000_0000_0000int
}

/// The largest square root of the discriminant's numerator of a small sphere
/// and a small ray, `9 * 2^48`.
pub open spec fn root_limit() -> int {
    9 * 0x1_0000_0000_0000int
}

/// The fraction has the size of a root of a small sphere and a small ray:
/// its numerator is at most `15 * 2^60` and its positive denominator at most
/// `3 * 2^60` in magnitude.
pub open spec fn fits_root(t: Ratio) -> bool {
    &&& -root_num_limit() <= t.num <= root_num_limit()
    &&& 0 < t.den <= root_den_limit()
}

/// The point of the ray at parameter `num / den`, `O + D * (num / den)`.
pub open spec fn point_on(r: Ray, num: int, den: int) -> Vector {
    r.origin.model().plus(r.direction.model().scaled(num, den))
}

/// The point of the ray at parameter `t`, `O + D * t`.
pub open spec fn point_at(r: Ray, t: Ratio) -> Vector {
    point_on(r, t.num as int, t.den as int)
}

/// `k` is a square root of `n`.
pub open spec fn is_square_root(k: int, n: int) -> bool {
    k * k == n
}

/// The largest magnitude of the discriminant's numerator of a small sphere
/// and a small ray, `75 * 2^96`.
pub open spec fn discriminant_limit() -> int {
    75 * 0x1_0000_0000_0000_0000_0000_0000int
}

impl Sphere {
    /// The normal that points out of the sphere at the point of the ray at
    /// parameter `t`: `(P - C) / radius`.
    pub open spec fn outward_normal(self, r: Ray, t: Ratio) -> Vector {
        point_at(r, t).minus(self.center.model()).scaled(
            self.radius.den as int,
            self.radius.num as int,
        )
    }

    /// The record of the hit of the ray at parameter `t`: the point
    /// `O + D * t`, the outward normal there turned against the ray, the
    /// sphere's material, the parameter, and whether the ray struck the
    /// outward face, that is ran against the outward normal.
    pub open spec fn record_at(self, r: Ray, t: Ratio) -> HitRecord {
        let outward = self.outward_normal(r, t);
        let front_face = r.direction.model().dot(outward) < 0;
        HitRecord {
            p: point_at(r, t).as_vec3(),
            normal: if front_face {
                outward.as_vec3()
            } else {
                outward.negated().as_vec3()
            },
            material: self.material,
            t,
            front_face,
        }
    }

    /// The near root of the intersection equation for the square root `root`
    /// of the discriminant's numerator.
    pub open spec fn near_root(self, r: Ray, root: int) -> Ratio {
        Ratio { num: self.root_num(r, root, -1) as i128, den: self.root_den(r) as i128 }
    }

    /// The far root of the intersection equation for the square root `root`
    /// of the discriminant's numerator.
    pub open spec fn far_root(self, r: Ray, root: int) -> Ratio {
        Ratio { num: self.root_num(r, root, 1) as i128, den: self.root_den(r) as i128 }
    }

    /// The hit of the ray on the sphere within the range from `t_min` to
    /// `t_max`, for the square root `root` of the discriminant's numerator:
    /// none where the discriminant is negative; else the record at the
    /// nearest root that lies in the range, if there is one.
    pub open spec fn hit_within(
        self,
        r: Ray,
        t_min: Ratio,
        t_max: Option<Ratio>,
        root: int,
    ) -> Option<HitRecord> {
        if self.discriminant_num(r) < 0 {
            None
        } else {
            match selected_root(self.near_root(r, root), self.far_root(r, root), t_min, t_max) {
                Some(t) => Some(self.record_at(r, t)),
                None => None,
            }
        }
    }

    /// The two roots `(-half_b -+ sqrt(discriminant)) / a` of the intersection
    /// equation, for the square root `root` of the discriminant's numerator.
    /// The direction of the ray is not zero.
    pub fn roots(&self, r: Ray, root: i128) -> (t: Roots)
        requires
            self.is_small(),
            r.is_small(),
            self.quadratic_a(r) > 0,
            0 <= root <= root_limit(),
        ensures
            t.near.num == self.root_num(r, root as int, -1),
            t.far.num == self.root_num(r, root as int, 1),
            t.near.den == self.root_den(r),
            t.far.den == self.root_den(r),
            t.near == self.near_root(r, root as int),
            t.far == self.far_root(r, root as int),
            t.near.num <= t.far.num,
            fits_root(t.near),
            fits_root(t.far),
    {
        let q = self.terms(r);
        let rw = self.radius.den;
        let dw = r.direction.x.den;
        proof {
            let b: int = 0x1000;
            let e24: int = 0x100_0000;
            let e36: int = 0x10_0000_0000;
            let e48: int = 0x1_0000_0000_0000;
            lemma_product_bound(q.half_b as int, rw as int, 6 * e36, b);
            lemma_product_bound(-(q.half_b * rw) - root, dw as int, 15 * e48, b);
            lemma_product_bound(-(q.half_b * rw) + root, dw as int, 15 * e48, b);
            lemma_product_bound(q.offset_w as int, rw as int, e24, b);
            lemma_product_positive(q.offset_w as int, rw as int);
            lemma_product_bound(q.offset_w * rw, q.a as int, e36, 3 * e24);
            lemma_product_positive(q.offset_w * rw, q.a as int);
            assert((-(q.half_b * rw) - root) * dw <= (-(q.half_b * rw) + root) * dw)
                by (nonlinear_arith)
                requires
                    root >= 0,
                    dw > 0,
            ;
        }
        let base: i128 = -(q.half_b * rw);
        let den: i128 = q.offset_w * rw * q.a;
        Roots {
            near: Ratio { num: (base - root) * dw, den },
            far: Ratio { num: (base + root) * dw, den },
        }
    }

    /// The square root of the discriminant's numerator, where that is a
    /// whole number: with it the roots of the intersection equation are
    /// fractions. Nothing where the discriminant is negative or its root is
    /// irrational.
    pub fn exact_root(&self, r: Ray) -> (root: Option<i128>)
        requires
            self.is_small(),
            r.is_small(),
        ensures
            root matches Some(s) ==> 0 <= s <= root_limit() && is_square_root(
                s as int,
                self.discriminant_num(r),
            ),
            root is None ==> forall|k: int| !#[trigger] is_square_root(k, self.discriminant_num(r)),
    {
        let discriminant = self.discriminant(r);
        if discriminant.num < 0 {
            proof {
                assert forall|k: int| !#[trigger] is_square_root(
                    k,
                    self.discriminant_num(r),
                ) by {
                    assert(k * k >= 0) by (nonlinear_arith);
                }
            }
            return None;
        }
        let s = integer_sqrt(discriminant.num as u128);
        proof {
            if s > root_limit() {
                assert(s * s > discriminant_limit()) by (nonlinear_arith)
                    requires
                        s >= 9 * 0x1_0000_0000_0000 + 1,
                        discriminant_limit() == 75 * 0x1_0000_0000_0000_0000_0000_0000,
                ;
            }
        }
        if s * s == discriminant.num as u128 {
            Some(s as i128)
        } else {
            proof {
                assert forall|k: int| !#[trigger] is_square_root(
                    k,
                    self.discriminant_num(r),
                ) by {
                    lemma_between_squares(s as int, self.discriminant_num(r), k);
                }
            }
            None
        }
    }

    /// The roots solve the intersection equation: where `root` is a square
    /// root of the discriminant's numerator, the point of the ray at the root
    /// `(-half_b + sign * sqrt(discriminant)) / a` lies on the sphere, that
    /// is `|P - C|^2 == radius^2`.
    pub proof fn lemma_root_lies_on_sphere(self, r: Ray, root: int, sign: int)
        requires
            r.origin.model().wf(),
            r.direction.model().wf(),
            self.center.model().wf(),
            self.radius.den > 0,
            sign == 1 || sign == -1,
            is_square_root(root, self.discriminant_num(r)),
        ensures
            ({
                let p = point_on(r, self.root_num(r, root, sign), self.root_den(r));
                let v = p.minus(self.center.model());
                v.dot(v) * (self.radius.den * self.radius.den) == (self.radius.num
                    * self.radius.num) * (v.w * v.w)
            }),
    {
        let o = r.origin.model();
        let d = r.direction.model();
        let c = self.center.model();
        let oc = self.offset(r);
        let rw = self.radius.den as int;
        let rn = self.radius.num as int;
        let a = self.quadratic_a(r);
        let hb = self.quadratic_half_b(r);
        let cc = oc.dot(oc);
        let cq = self.quadratic_c(r);
        let tn = self.root_num(r, root, sign);
        let td = self.root_den(r);
        let p = point_on(r, tn, td);
        let v = p.minus(c);
        // the point and the vector from the centre to it
        let x = d.w * td;
        let y = tn * oc.w;
        lemma_offset_component(o.x, o.w, c.x, c.w, d.x, tn, x, oc.x, oc.w, y);
        lemma_offset_component(o.y, o.w, c.y, c.w, d.y, tn, x, oc.y, oc.w, y);
        lemma_offset_component(o.z, o.w, c.z, c.w, d.z, tn, x, oc.z, oc.w, y);
        assert(v.w == oc.w * x) by (nonlinear_arith)
            requires
                v.w == (o.w * x) * c.w,
                oc.w == o.w * c.w,
        ;
        // its squared length, as a quadratic form in x and y
        lemma_square_of_sum(oc.x, x, d.x, y);
        lemma_square_of_sum(oc.y, x, d.y, y);
        lemma_square_of_sum(oc.z, x, d.z, y);
        let xx = x * x;
        let xy = x * y;
        let yy = y * y;
        lemma_distribute_three(oc.x * oc.x, oc.y * oc.y, oc.z * oc.z, xx);
        lemma_distribute_three(oc.x * d.x, oc.y * d.y, oc.z * d.z, xy);
        lemma_distribute_three(d.x * d.x, d.y * d.y, d.z * d.z, yy);
        let hxy = hb * xy;
        assert(2 * (oc.x * d.x) * xy + 2 * (oc.y * d.y) * xy + 2 * (oc.z * d.z) * xy == 2 * hxy)
            by (nonlinear_arith)
            requires
                hxy == (oc.x * d.x) * xy + (oc.y * d.y) * xy + (oc.z * d.z) * xy,
        ;
        assert(v.dot(v) == cc * xx + 2 * hxy + a * yy);
        // x and y share the factor k
        let k = d.w * oc.w;
        let m = rw * a;
        let h = hb * rw;
        let u = -h + sign * root;
        assert(x == k * m) by (nonlinear_arith)
            requires
                x == d.w * (oc.w * rw * a),
                k == d.w * oc.w,
                m == rw * a,
        ;
        assert(y == k * u) by (nonlinear_arith)
            requires
                y == (u * d.w) * oc.w,
                k == d.w * oc.w,
        ;
        let kk = k * k;
        let mm = m * m;
        let mu = m * u;
        let uu = u * u;
        lemma_swap_middle(k, m, k, m);
        lemma_swap_middle(k, m, k, u);
        lemma_swap_middle(k, u, k, u);
        assert(xx == kk * mm && xy == kk * mu && yy == kk * uu);
        // the root solves the equation
        let rr = root * root;
        let sr = sign * root;
        assert(sr * sr == rr) by (nonlinear_arith)
            requires
                sr == sign * root,
                sign == 1 || sign == -1,
                rr == root * root,
        ;
        let hu = h * u;
        assert(uu + 2 * hu == sr * sr - h * h) by (nonlinear_arith)
            requires
                u == -h + sr,
                uu == u * u,
                hu == h * u,
        ;
        let rw2 = rw * rw;
        lemma_swap_middle(hb, rw, hb, rw);
        assert(h * h == hb * hb * rw2);
        assert(rr == hb * hb * rw2 - a * cq);
        let acq = a * cq;
        assert(uu + 2 * hu == -acq);
        let rn2 = rn * rn;
        let ow2 = oc.w * oc.w;
        assert(cq == cc * rw2 - rn2 * ow2);
        // the bracket cc m^2 + 2 hb m u + a u^2
        let aa = a * a;
        let hmu = hb * mu;
        assert(hmu == a * hu) by (nonlinear_arith)
            requires
                hmu == hb * (m * u),
                m == rw * a,
                hu == (hb * rw) * u,
        ;
        let bracket = cc * mm + 2 * hmu + a * uu;
        assert(2 * hmu + a * uu == a * (2 * hu + uu)) by (nonlinear_arith)
            requires
                hmu == a * hu,
        ;
        assert(a * (2 * hu + uu) == -(aa * cq)) by (nonlinear_arith)
            requires
                2 * hu + uu == -(a * cq),
                aa == a * a,
        ;
        lemma_swap_middle(rw, a, rw, a);
        assert(mm == rw2 * aa);
        let crw = cc * rw2;
        assert(cc * mm == aa * crw) by (nonlinear_arith)
            requires
                mm == rw2 * aa,
                crw == cc * rw2,
        ;
        let rest = rn2 * ow2;
        assert(aa * crw - aa * cq == aa * rest) by (nonlinear_arith)
            requires
                cq == crw - rest,
        ;
        assert(bracket == aa * rest);
        // back to the vector
        assert(cc * xx == kk * (cc * mm)) by (nonlinear_arith)
            requires
                xx == kk * mm,
        ;
        assert(hxy == kk * hmu) by (nonlinear_arith)
            requires
                hxy == hb * xy,
                xy == kk * mu,
                hmu == hb * mu,
        ;
        assert(a * yy == kk * (a * uu)) by (nonlinear_arith)
            requires
                yy == kk * uu,
        ;
        let t1 = cc * mm;
        let t3 = a * uu;
        assert(kk * t1 + 2 * (kk * hmu) + kk * t3 == kk * (t1 + 2 * hmu + t3))
            by (nonlinear_arith);
        assert(v.dot(v) == kk * bracket);
        let vv = v.dot(v);
        let big = kk * mm;
        assert(v.w * v.w == ow2 * big) by {
            lemma_swap_middle(oc.w, x, oc.w, x);
        }
        // |v|^2 rw^2 == rn^2 v.w^2
        let ar = aa * rest;
        assert(ar * rw2 == rn2 * (ow2 * mm)) by (nonlinear_arith)
            requires
                ar == aa * (rn2 * ow2),
                mm == rw2 * aa,
        ;
        let om = ow2 * mm;
        assert((kk * ar) * rw2 == kk * (ar * rw2)) by (nonlinear_arith);
        assert(kk * (rn2 * om) == rn2 * (ow2 * big)) by (nonlinear_arith)
            requires
                om == ow2 * mm,
                big == kk * mm,
        ;
    }

    /// Fills the record of the hit at parameter `t` of the ray: the point
    /// `O + D * t`, the outward normal `(P - C) / radius` turned against the
    /// ray, and the sphere's material.
    pub fn hit_at(&self, r: Ray, t: Ratio) -> (rec: HitRecord)
        requires
            self.is_small(),
            r.is_small(),
            fits_root(t),
        ensures
            rec == self.record_at(r, t),
            rec.p.is_uniform(),
            rec.normal.is_uniform(),
            r.direction.model().dot(rec.normal.model()) <= 0,
    {
        let o = r.origin;
        let d = r.direction;
        let c = self.center;
        let ow = o.x.den;
        let cw = c.x.den;
        let rw = self.radius.den;
        let rn = self.radius.num;
        let ghost b: int = 0x1000;
        let ghost e72: int = 0x1_0000_0000_0000_0000_00;
        let ghost e84: int = 0x1_0000_0000_0000_0000_0000_0;
        let ghost e96: int = 0x1_0000_0000_0000_0000_0000_0000;
        let ghost e108: int = 0x1_0000_0000_0000_0000_0000_0000_000;
        proof {
            lemma_product_bound(d.x.den as int, t.den as int, b, root_den_limit());
            lemma_product_positive(d.x.den as int, t.den as int);
            lemma_product_bound(d.x.num as int, t.num as int, b, root_num_limit());
            lemma_product_bound(d.y.num as int, t.num as int, b, root_num_limit());
            lemma_product_bound(d.z.num as int, t.num as int, b, root_num_limit());
        }
        let w: i128 = d.x.den * t.den;
        let sx: i128 = d.x.num * t.num;
        let sy: i128 = d.y.num * t.num;
        let sz: i128 = d.z.num * t.num;
        proof {
            lemma_product_bound(o.x.num as int, w as int, b, 3 * e72);
            lemma_product_bound(o.y.num as int, w as int, b, 3 * e72);
            lemma_product_bound(o.z.num as int, w as int, b, 3 * e72);
            lemma_product_bound(sx as int, ow as int, 15 * e72, b);
            lemma_product_bound(sy as int, ow as int, 15 * e72, b);
            lemma_product_bound(sz as int, ow as int, 15 * e72, b);
            lemma_product_bound(ow as int, w as int, b, 3 * e72);
            lemma_product_positive(ow as int, w as int);
        }
        let px: i128 = o.x.num * w + sx * ow;
        let py: i128 = o.y.num * w + sy * ow;
        let pz: i128 = o.z.num * w + sz * ow;
        let pw: i128 = ow * w;
        proof {
            lemma_product_bound(px as int, cw as int, 18 * e84, b);
            lemma_product_bound(py as int, cw as int, 18 * e84, b);
            lemma_product_bound(pz as int, cw as int, 18 * e84, b);
            lemma_product_bound(c.x.num as int, pw as int, b, 3 * e84);
            lemma_product_bound(c.y.num as int, pw as int, b, 3 * e84);
            lemma_product_bound(c.z.num as int, pw as int, b, 3 * e84);
            lemma_product_bound(pw as int, cw as int, 3 * e84, b);
            lemma_product_positive(pw as int, cw as int);
        }
        let vx: i128 = px * cw - c.x.num * pw;
        let vy: i128 = py * cw - c.y.num * pw;
        let vz: i128 = pz * cw - c.z.num * pw;
        let vw: i128 = pw * cw;
        proof {
            lemma_product_bound(vx as int, rw as int, 21 * e96, b);
            lemma_product_bound(vy as int, rw as int, 21 * e96, b);
            lemma_product_bound(vz as int, rw as int, 21 * e96, b);
            lemma_product_bound(vw as int, rn as int, 3 * e96, b);
            lemma_product_positive(vw as int, rn as int);
        }
        let nx: i128 = vx * rw;
        let ny: i128 = vy * rw;
        let nz: i128 = vz * rw;
        let nw: i128 = vw * rn;
        proof {
            lemma_product_bound(d.x.num as int, nx as int, b, 21 * e108);
            lemma_product_bound(d.y.num as int, ny as int, b, 21 * e108);
            lemma_product_bound(d.z.num as int, nz as int, b, 21 * e108);
        }
        let facing: i128 = d.x.num * nx + d.y.num * ny + d.z.num * nz;
        let front_face = facing < 0;
        let outward = Vec3::over_denominator(nx, ny, nz, nw);
        assert(outward.model() == self.outward_normal(r, t));
        let normal = if front_face {
            outward
        } else {
            Vec3::over_denominator(-nx, -ny, -nz, nw)
        };
        proof {
            let dm = d.model();
            let om = outward.model();
            assert(dm.dot(om.negated()) == -dm.dot(om)) by (nonlinear_arith)
                requires
                    dm.dot(om) == dm.x * om.x + dm.y * om.y + dm.z * om.z,
                    dm.dot(om.negated()) == dm.x * (-om.x) + dm.y * (-om.y) + dm.z * (-om.z),
            ;
        }
        HitRecord {
            p: Vec3::over_denominator(px, py, pz, pw),
            normal,
            material: self.material,
            t,
            front_face,
        }
    }

    /// Intersects the ray with the sphere, for the square root `root` of the
    /// discriminant's numerator: no hit where the discriminant is negative;
    /// else the hit at the nearest root that lies in the range from `t_min` to
    /// `t_max`, if there is one. The direction of the ray is not zero.
    pub fn hit(&self, r: Ray, t_min: Ratio, t_max: Option<Ratio>, root: i128) -> (hit: Option<
        HitRecord,
    >)
        requires
            self.is_small(),
            r.is_small(),
            self.quadratic_a(r) > 0,
            0 <= root <= root_limit(),
            t_min.is_short(),
            t_max matches Some(max) ==> fits_root(max),
        ensures
            hit == self.hit_within(r, t_min, t_max, root as int),
            hit matches Some(rec) ==> fits_root(rec.t) && in_range(rec.t, t_min, t_max),
            self.discriminant_num(r) >= 0 ==> fits_root(self.near_root(r, root as int))
                && fits_root(self.far_root(r, root as int)),
            forall|wider: Option<Ratio>| #[trigger]
                at_least(wider, t_max) ==> consistent(
                    hit,
                    self.hit_within(r, t_min, wider, root as int),
                    t_max,
                ),
    {
        let discriminant = self.discriminant(r);
        if discriminant.num < 0 {
            return None;
        }
        let roots = self.roots(r, root);
        proof {
            assert forall|wider: Option<Ratio>| #[trigger] at_least(wider, t_max) implies consistent(
                self.hit_within(r, t_min, t_max, root as int),
                self.hit_within(r, t_min, wider, root as int),
                t_max,
            ) by {
                lemma_selected_root_under_limit(roots.near, roots.far, t_min, t_max, wider);
            }
        }
        match select_root(roots.near, roots.far, t_min, t_max) {
            Some(t) => Some(self.hit_at(r, t)),
            None => None,
        }
    }
}

/// One component of the vector from the centre to the point of the ray at
/// parameter `tn / td`: with `x = d.w * td` and `y = tn * oc.w` it is
/// `oc * x + d * y`.
proof fn lemma_offset_component(
    o: int,
    ow: int,
    c: int,
    cw: int,
    d: int,
    tn: int,
    x: int,
    oc: int,
    ocw: int,
    y: int,
)
    requires
        oc == o * cw - c * ow,
        ocw == ow * cw,
        y == tn * ocw,
    ensures
        (o * x + (d * tn) * ow) * cw - c * (ow * x) == oc * x + d * y,
{
    let first = o * x;
    let second = (d * tn) * ow;
    assert((first + second) * cw == first * cw + second * cw) by (nonlinear_arith);
    assert(first * cw == (o * cw) * x) by (nonlinear_arith)
        requires
            first == o * x,
    ;
    assert(second * cw == d * y) by (nonlinear_arith)
        requires
            second == (d * tn) * ow,
            y == tn * (ow * cw),
    ;
    assert(c * (ow * x) == (c * ow) * x) by (nonlinear_arith);
    let left = o * cw;
    let right = c * ow;
    assert((left - right) * x == left * x - right * x) by (nonlinear_arith);
}

/// The square of `p * x + q * y`.
proof fn lemma_square_of_sum(p: int, x: int, q: int, y: int)
    ensures
        (p * x + q * y) * (p * x + q * y) == (p * p) * (x * x) + 2 * (p * q) * (x * y) + (q * q) * (
        y * y),
{
    let a = p * x;
    let b = q * y;
    assert((a + b) * (a + b) == a * a + 2 * (a * b) + b * b) by (nonlinear_arith);
    assert(a * a == (p * p) * (x * x)) by (nonlinear_arith)
        requires
            a == p * x,
    ;
    assert(b * b == (q * q) * (y * y)) by (nonlinear_arith)
        requires
            b == q * y,
    ;
    lemma_swap_middle(p, x, q, y);
    assert(2 * (a * b) == 2 * (p * q) * (x * y)) by (nonlinear_arith)
        requires
            a * b == (p * q) * (x * y),
    ;
}

/// `(p * x) * (q * y) == (p * q) * (x * y)`.
proof fn lemma_swap_middle(p: int, x: int, q: int, y: int)
    ensures
        (p * x) * (q * y) == (p * q) * (x * y),
{
    let xq = x * q;
    assert((p * x) * (q * y) == p * (xq * y)) by (nonlinear_arith)
        requires
            xq == x * q,
    ;
    assert(xq == q * x) by (nonlinear_arith)
        requires
            xq == x * q,
    ;
    let xy = x * y;
    assert(xq * y == q * xy) by (nonlinear_arith)
        requires
            xq == q * x,
            xy == x * y,
    ;
    assert(p * (q * xy) == (p * q) * xy) by (nonlinear_arith);
}

/// `(s1 + s2 + s3) * k == s1 * k + s2 * k + s3 * k`.
proof fn lemma_distribute_three(s1: int, s2: int, s3: int, k: int)
    ensures
        (s1 + s2 + s3) * k == s1 * k + s2 * k + s3 * k,
{
    assert((s1 + s2 + s3) * k == s1 * k + s2 * k + s3 * k) by (nonlinear_arith);
}

/// `t` lies in the closed range from `t_min` to `t_max`, where no `t_max`
/// stands for a range without upper end.
pub open spec fn in_range(t: Ratio, t_min: Ratio, t_max: Option<Ratio>) -> bool {
    &&& !t.less_than(t_min)
    &&& t_max matches Some(max) ==> !max.less_than(t)
}

/// The root at which a ray is taken to hit, of the two roots `near <= far` of
/// the intersection equation: the near one if it lies in the range, else the
/// far one if that lies in the range, else none.
pub open spec fn selected_root(near: Ratio, far: Ratio, t_min: Ratio, t_max: Option<Ratio>)
    -> Option<Ratio> {
    if in_range(near, t_min, t_max) {
        Some(near)
    } else if in_range(far, t_min, t_max) {
        Some(far)
    } else {
        None
    }
}

/// The range that ends at `wider` contains the range that ends at `limit`.
pub open spec fn at_least(wider: Option<Ratio>, limit: Option<Ratio>) -> bool {
    wider matches Some(end) ==> end.wf() && limit is Some && !end.less_than(limit->Some_0)
}

/// What a search in a range tells of a search in a range that contains it.
/// A hit in the narrow range is the hit in the wide one; where the narrow
/// range holds no hit, a hit in the wide one lies beyond the narrow range's
/// end `limit`.
pub open spec fn consistent(
    narrow: Option<HitRecord>,
    wide: Option<HitRecord>,
    limit: Option<Ratio>,
) -> bool {
    &&& narrow is Some ==> narrow == wide
    &&& narrow is None && wide is Some ==> limit is Some && limit->Some_0.less_than(
        wide->Some_0.t,
    )
}

/// Shortening a range from the far end either leaves the selected root as it
/// is, or leaves no root, and then the root that was selected lies beyond the
/// new end.
pub proof fn lemma_selected_root_under_limit(
    near: Ratio,
    far: Ratio,
    t_min: Ratio,
    limit: Option<Ratio>,
    wider: Option<Ratio>,
)
    requires
        near.den == far.den,
        near.den > 0,
        near.num <= far.num,
        t_min.wf(),
        limit matches Some(end) ==> end.wf(),
        at_least(wider, limit),
    ensures
        selected_root(near, far, t_min, limit) is Some ==> selected_root(near, far, t_min, limit)
            == selected_root(near, far, t_min, wider),
        selected_root(near, far, t_min, limit) is None && selected_root(near, far, t_min, wider)
            is Some ==> limit is Some && limit->Some_0.less_than(
            selected_root(near, far, t_min, wider)->Some_0,
        ),
{
    assert(!far.less_than(near)) by (nonlinear_arith)
        requires
            near.den == far.den,
            near.den > 0,
            near.num <= far.num,
            far.less_than(near) == (far.num * near.den < near.num * far.den),
    ;
    match limit {
        None => {
            assert(wider is None);
        },
        Some(end) => {
            match wider {
                None => {},
                Some(wide_end) => {
                    // whatever does not exceed `end` does not exceed `wide_end`
                    if !end.less_than(near) {
                        lemma_order_chain(wide_end, end, near);
                    }
                    if !end.less_than(far) {
                        lemma_order_chain(wide_end, end, far);
                    }
                },
            }
            // a near root below the range keeps the far root the only candidate
            if near.less_than(t_min) {
            } else if end.less_than(near) {
                // the near root lies beyond the end, and so does the far root
                if !end.less_than(far) {
                    lemma_order_chain(end, far, near);
                }
                if wider is Some && wider->Some_0.less_than(near) {
                    if !wider->Some_0.less_than(far) {
                        lemma_order_chain(wider->Some_0, far, near);
                    }
                }
            }
        },
    }
}

/// Whether `t` lies in the closed range from `t_min` to `t_max`.
fn within_range(t: Ratio, t_min: Ratio, t_max: Option<Ratio>) -> (b: bool)
    requires
        fits_root(t),
        t_min.is_short(),
        t_max matches Some(max) ==> fits_root(max),
    ensures
        b == in_range(t, t_min, t_max),
{
    proof {
        lemma_product_bound(t.num as int, t_min.den as int, root_num_limit(), 0x8000_0000);
        lemma_product_bound(t_min.num as int, t.den as int, 0x8000_0000, root_den_limit());
    }
    if t.num * t_min.den < t_min.num * t.den {
        return false;
    }
    match t_max {
        Some(max) => {
            proof {
                lemma_product_bound(
                    t.num as int,
                    max.den as int,
                    root_num_limit(),
                    root_den_limit(),
                );
                lemma_product_bound(
                    max.num as int,
                    t.den as int,
                    root_num_limit(),
                    root_den_limit(),
                );
            }
            !(max.num * t.den < t.num * max.den)
        },
        None => true,
    }
}

/// Chooses the root at which a ray hits: the nearest root that lies in the
/// range from `t_min` to `t_max`.
pub fn select_root(near: Ratio, far: Ratio, t_min: Ratio, t_max: Option<Ratio>) -> (t: Option<
    Ratio,
>)
    requires
        fits_root(near),
        fits_root(far),
        t_min.is_short(),
        t_max matches Some(max) ==> fits_root(max),
    ensures
        t == selected_root(near, far, t_min, t_max),
        t matches Some(chosen) ==> fits_root(chosen) && in_range(chosen, t_min, t_max),
{
    if within_range(near, t_min, t_max) {
        Some(near)
    } else if within_range(far, t_min, t_max) {
        Some(far)
    } else {
        None
    }
}

} // verus!
