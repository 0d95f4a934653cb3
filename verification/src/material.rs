use vstd::prelude::*;
use crate::hit_record::HitRecord;
use crate::ratio::{lemma_product_bound, lemma_product_positive, Ratio};
use crate::ray::Ray;
use crate::vec3::{
    lemma_reflect_head_on, lemma_unit_not_near_zero, near_zero, ones, reflect, Color, Vec3,
    Vector,
};

verus! {

/// A diffuse surface: scatters around the normal and tints by `albedo`.
#[derive(Clone, Copy, Debug, PartialEq, Eq, Structural)]
pub struct Lambertian {
    pub albedo: Color,
}

/// A reflective surface: mirrors the incoming ray, blurred by `fuzz`, and
/// tints by `albedo`.
#[derive(Clone, Copy, Debug, PartialEq, Eq, Structural)]
pub struct Metal {
    pub albedo: Color,
    pub fuzz: Ratio,
}

/// A clear refractive surface with refraction index `ir`.
#[derive(Clone, Copy, Debug, PartialEq, Eq, Structural)]
pub struct Dielectric {
    pub ir: Ratio,
}

/// The closed set of surface models.
#[derive(Clone, Copy, Debug, PartialEq, Eq, Structural)]
pub enum Material {
    Lambertian(Lambertian),
    Metal(Metal),
    Dielectric(Dielectric),
}

/// A ray that a surface produced, with the factor by which the surface
/// tints the light that comes back along it.
#[derive(Clone, Copy, Debug, PartialEq, Eq, Structural)]
pub struct Scattered {
    pub ray: Ray,
    pub attenuation: Color,
}

impl Lambertian {
    /// The albedo is well-formed.
    pub open spec fn wf(self) -> bool {
        self.albedo.wf()
    }

    /// The direction into which a diffuse surface with the normal `normal`
    /// scatters, for the random unit vector `unit_vector`: their sum, or the
    /// normal itself where the sum is near zero.
    pub open spec fn scatter_direction(normal: Vec3, unit_vector: Vec3) -> Vec3 {
        let sum = normal.model().plus(unit_vector.model());
        if sum.near_zero() {
            normal
        } else {
            sum.as_vec3()
        }
    }

    /// Scatters at the point of `rec`, given the random unit vector that is
    /// added to the normal. A diffuse surface never absorbs: the result is a
    /// ray from the point of `rec` in the scatter direction, tinted by the
    /// albedo; a surface with a normal of length one never produces a
    /// direction near zero.
    pub fn scatter(&self, rec: &HitRecord, unit_vector: Vec3) -> (r: Option<Scattered>)
        requires
            rec.normal.is_short(),
            unit_vector.is_short(),
        ensures
            r == Some(
                Scattered {
                    ray: Ray {
                        origin: rec.p,
                        direction: Lambertian::scatter_direction(rec.normal, unit_vector),
                    },
                    attenuation: self.albedo,
                },
            ),
            rec.normal.model().is_unit() ==> !r->Some_0.ray.direction.model().near_zero(),
            r->Some_0.ray.direction.is_uniform(),
    {
        let sum = rec.normal.add(unit_vector);
        let direction = if near_zero(sum) {
            rec.normal
        } else {
            sum
        };
        proof {
            if rec.normal.model().is_unit() {
                lemma_unit_not_near_zero(rec.normal.model());
            }
        }
        Some(Scattered { ray: Ray { origin: rec.p, direction }, attenuation: self.albedo })
    }

    /// The colour returned for a path that is not followed further: the
    /// albedo.
    pub fn diffuse(&self) -> (c: Color)
        ensures
            c == self.albedo,
    {
        self.albedo
    }
}

impl Metal {
    /// The roughness lies in `[0, 1]`.
    pub open spec fn wf(self) -> bool {
        &&& self.albedo.wf()
        &&& self.fuzz.wf()
        &&& self.fuzz.in_closed_unit_interval()
    }

    /// The direction into which a metal surface with the normal `normal` and
    /// the roughness `fuzz_num / fuzz_den` sends a ray that arrives in the
    /// unit direction `unit_direction`: the mirror image of the direction,
    /// moved by the roughness times a point `sample` of the unit sphere.
    pub open spec fn scatter_direction(
        unit_direction: Vector,
        normal: Vector,
        sample: Vector,
        fuzz_num: int,
        fuzz_den: int,
    ) -> Vector {
        unit_direction.reflect(normal).plus(sample.scaled(fuzz_num, fuzz_den))
    }

    /// Scatters a ray that arrives at the point of `rec` in the unit
    /// direction `unit_direction`, given the point `sample` of the unit
    /// sphere that roughens the reflection. The ray is reflected where the
    /// roughened direction still points away from the surface, that is where
    /// its dot product with the normal is positive, and absorbed otherwise.
    pub fn scatter(&self, rec: &HitRecord, unit_direction: Vec3, sample: Vec3) -> (r: Option<
        Scattered,
    >)
        requires
            self.wf(),
            self.fuzz.den < 0x10_0000,
            rec.normal.within(0x10_0000),
            unit_direction.within(0x10_0000),
            sample.within(0x10_0000),
        ensures
            ({
                let direction = Metal::scatter_direction(
                    unit_direction.model(),
                    rec.normal.model(),
                    sample.model(),
                    self.fuzz.num as int,
                    self.fuzz.den as int,
                );
                if direction.dot(rec.normal.model()) > 0 {
                    &&& r is Some
                    &&& r->Some_0.ray.origin == rec.p
                    &&& r->Some_0.ray.direction.is_uniform()
                    &&& r->Some_0.ray.direction.model() == direction
                    &&& r->Some_0.attenuation == self.albedo
                } else {
                    r is None
                }
            }),
    {
        let n = rec.normal;
        let reflected = reflect(unit_direction, n);
        let offset = sample.scale(self.fuzz);
        proof {
            let small: int = 0x10_0000;
            let v = unit_direction.model();
            let m = n.model();
            lemma_product_bound(m.w, m.w, small, small);
            lemma_product_bound(v.x, m.x, small, small);
            lemma_product_bound(v.y, m.y, small, small);
            lemma_product_bound(v.z, m.z, small, small);
            let square: int = 0x100_0000_0000;
            lemma_product_bound(m.w * m.w, v.x, square, small);
            lemma_product_bound(m.w * m.w, v.y, square, small);
            lemma_product_bound(m.w * m.w, v.z, square, small);
            lemma_product_bound(2 * v.dot(m), m.x, 6 * square, small);
            lemma_product_bound(2 * v.dot(m), m.y, 6 * square, small);
            lemma_product_bound(2 * v.dot(m), m.z, 6 * square, small);
            lemma_product_bound(v.w, m.w * m.w, small, square);
            lemma_product_bound(sample.model().x, self.fuzz.num as int, small, small);
            lemma_product_bound(sample.model().y, self.fuzz.num as int, small, small);
            lemma_product_bound(sample.model().z, self.fuzz.num as int, small, small);
            lemma_product_bound(sample.model().w, self.fuzz.den as int, small, small);
        }
        let rw: i128 = reflected.x.den;
        let ow: i128 = offset.x.den;
        proof {
            let cube: int = 0x1000_0000_0000_0000;
            let square: int = 0x100_0000_0000;
            lemma_product_bound(reflected.x.num as int, ow as int, 7 * cube, square);
            lemma_product_bound(reflected.y.num as int, ow as int, 7 * cube, square);
            lemma_product_bound(reflected.z.num as int, ow as int, 7 * cube, square);
            lemma_product_bound(offset.x.num as int, rw as int, square, cube);
            lemma_product_bound(offset.y.num as int, rw as int, square, cube);
            lemma_product_bound(offset.z.num as int, rw as int, square, cube);
            lemma_product_bound(rw as int, ow as int, cube, square);
            lemma_product_positive(rw as int, ow as int);
        }
        let direction = Vec3::over_denominator(
            reflected.x.num * ow + offset.x.num * rw,
            reflected.y.num * ow + offset.y.num * rw,
            reflected.z.num * ow + offset.z.num * rw,
            rw * ow,
        );
        proof {
            let fifth: int = 0x10_0000_0000_0000_0000_0000_0000;
            let small: int = 0x10_0000;
            lemma_product_bound(direction.x.num as int, n.x.num as int, 8 * fifth, small);
            lemma_product_bound(direction.y.num as int, n.y.num as int, 8 * fifth, small);
            lemma_product_bound(direction.z.num as int, n.z.num as int, 8 * fifth, small);
        }
        if direction.x.num * n.x.num + direction.y.num * n.y.num + direction.z.num * n.z.num > 0 {
            Some(Scattered { ray: Ray { origin: rec.p, direction }, attenuation: self.albedo })
        } else {
            None
        }
    }

    /// A polished mirror sends a ray that strikes it head-on straight back:
    /// with no roughness and a normal `n` of length one, a ray that arrives
    /// in the direction `-n` is scattered, and leaves in the direction `n`.
    pub proof fn lemma_mirror_head_on(n: Vector, sample: Vector, fuzz_den: int)
        requires
            n.wf(),
            n.is_unit(),
            sample.wf(),
            fuzz_den > 0,
        ensures
            Metal::scatter_direction(n.negated(), n, sample, 0, fuzz_den).same_point(n),
            Metal::scatter_direction(n.negated(), n, sample, 0, fuzz_den).dot(n) > 0,
    {
        let back = n.negated().reflect(n);
        let none = sample.scaled(0, fuzz_den);
        let direction = back.plus(none);
        lemma_reflect_head_on(n);
        let k = sample.w * fuzz_den;
        lemma_product_positive(sample.w, fuzz_den);
        assert(none.x == 0 && none.y == 0 && none.z == 0 && none.w == k);
        assert(direction.x == back.x * k && direction.y == back.y * k && direction.z == back.z * k
            && direction.w == back.w * k) by (nonlinear_arith)
            requires
                direction.x == back.x * k + 0 * back.w,
                direction.y == back.y * k + 0 * back.w,
                direction.z == back.z * k + 0 * back.w,
                direction.w == back.w * k,
        ;
        lemma_same_direction(back.x, k, n.x, n.w, back.w);
        lemma_same_direction(back.y, k, n.y, n.w, back.w);
        lemma_same_direction(back.z, k, n.z, n.w, back.w);
        // direction . n * n.w == k * back.w * (n . n)
        assert((direction.x * n.x) * n.w == (k * back.w) * (n.x * n.x)) by (nonlinear_arith)
            requires
                direction.x * n.w == n.x * (back.w * k),
        ;
        assert((direction.y * n.y) * n.w == (k * back.w) * (n.y * n.y)) by (nonlinear_arith)
            requires
                direction.y * n.w == n.y * (back.w * k),
        ;
        assert((direction.z * n.z) * n.w == (k * back.w) * (n.z * n.z)) by (nonlinear_arith)
            requires
                direction.z * n.w == n.z * (back.w * k),
        ;
        let scale = k * back.w;
        lemma_product_positive(k, back.w);
        let nn = n.dot(n);
        assert(direction.dot(n) * n.w == scale * nn) by (nonlinear_arith)
            requires
                (direction.x * n.x) * n.w == scale * (n.x * n.x),
                (direction.y * n.y) * n.w == scale * (n.y * n.y),
                (direction.z * n.z) * n.w == scale * (n.z * n.z),
                nn == n.x * n.x + n.y * n.y + n.z * n.z,
        ;
        lemma_product_positive(n.w, n.w);
        lemma_product_positive(scale, nn);
        assert(direction.dot(n) > 0) by (nonlinear_arith)
            requires
                direction.dot(n) * n.w > 0,
                n.w > 0,
        ;
    }

    /// The colour returned for a path that is not followed further: the
    /// albedo.
    pub fn diffuse(&self) -> (c: Color)
        ensures
            c == self.albedo,
    {
        self.albedo
    }
}

impl Dielectric {
    /// The refraction index is positive.
    pub open spec fn wf(self) -> bool {
        &&& self.ir.wf()
        &&& self.ir.is_positive()
    }

    /// The ratio of the refraction indices on the two sides of the surface, in
    /// the direction of travel: `1 / ir` for a ray that enters through the
    /// front face, `ir` for one that leaves through the back.
    pub fn refraction_ratio(&self, front_face: bool) -> (r: Ratio)
        requires
            self.wf(),
        ensures
            front_face ==> r == self.ir.inverse(),
            !front_face ==> r == self.ir,
            r.wf(),
            r.is_positive(),
    {
        if front_face {
            Ratio { num: self.ir.den, den: self.ir.num }
        } else {
            self.ir
        }
    }

    /// Whether the squared sine of the angle of refraction would exceed one,
    /// for the ratio `ratio` of the indices and the cosine `cos_theta` of the
    /// angle of incidence: `ratio * sqrt(1 - cos_theta^2) > 1`, which for a
    /// positive ratio is `ratio^2 * (1 - cos_theta^2) > 1`.
    pub open spec fn total_reflection(ratio: Ratio, cos_theta: Ratio) -> bool {
        ratio.num * ratio.num * (cos_theta.den * cos_theta.den - cos_theta.num * cos_theta.num)
            > ratio.den * ratio.den * (cos_theta.den * cos_theta.den)
    }

    /// Whether a ray that meets the surface under an angle with cosine
    /// `cos_theta` cannot be refracted and is reflected totally.
    pub fn cannot_refract(&self, front_face: bool, cos_theta: Ratio) -> (b: bool)
        requires
            self.wf(),
            self.ir.is_short(),
            self.ir.num < 0x8000_0000,
            cos_theta.wf(),
            cos_theta.is_short(),
        ensures
            front_face ==> b == Dielectric::total_reflection(self.ir.inverse(), cos_theta),
            !front_face ==> b == Dielectric::total_reflection(self.ir, cos_theta),
    {
        let ratio = self.refraction_ratio(front_face);
        proof {
            lemma_product_bound(ratio.num as int, ratio.num as int, 0x8000_0000, 0x8000_0000);
            lemma_product_bound(ratio.den as int, ratio.den as int, 0x8000_0000, 0x8000_0000);
            lemma_product_bound(
                cos_theta.num as int,
                cos_theta.num as int,
                0x8000_0000,
                0x8000_0000,
            );
            lemma_product_bound(
                cos_theta.den as int,
                cos_theta.den as int,
                0x8000_0000,
                0x8000_0000,
            );
        }
        let rr: i128 = ratio.num * ratio.num;
        let dd: i128 = ratio.den * ratio.den;
        let cc: i128 = cos_theta.den * cos_theta.den;
        let sin2: i128 = cc - cos_theta.num * cos_theta.num;
        proof {
            let big: int = 0x4000_0000_0000_0000;
            lemma_product_bound(rr as int, sin2 as int, big, 2 * big);
            lemma_product_bound(dd as int, cc as int, big, big);
        }
        rr * sin2 > dd * cc
    }

    /// Glass of index 3/2 refracts every ray that strikes it near the
    /// perpendicular: where the cosine of the angle of incidence is at least
    /// `sqrt(5) / 3` (about 0.745), there is no total reflection, neither on
    /// the way in nor on the way out.
    pub proof fn lemma_steep_rays_refract(cos_theta: Ratio)
        requires
            cos_theta.wf(),
            9 * (cos_theta.num * cos_theta.num) >= 5 * (cos_theta.den * cos_theta.den),
        ensures
            !Dielectric::total_reflection(Ratio { num: 3, den: 2 }, cos_theta),
            !Dielectric::total_reflection(Ratio { num: 2, den: 3 }, cos_theta),
    {
        let cc = cos_theta.den * cos_theta.den;
        let nn = cos_theta.num * cos_theta.num;
        let out = Ratio { num: 3, den: 2 };
        let into = Ratio { num: 2, den: 3 };
        assert(out.num * out.num * (cc - nn) == 9 * (cc - nn) && out.den * out.den * cc == 4 * cc
            && into.num * into.num * (cc - nn) == 4 * (cc - nn) && into.den * into.den * cc == 9
            * cc) by (nonlinear_arith)
            requires
                out.num == 3,
                out.den == 2,
                into.num == 2,
                into.den == 3,
        ;
        assert(nn >= 0) by (nonlinear_arith)
            requires
                nn == cos_theta.num * cos_theta.num,
        ;
    }

    /// The colour returned for a path that is not followed further: white.
    pub fn diffuse(&self) -> (c: Color)
        ensures
            c == white(),
    {
        let one = Ratio::from_integer(1);
        Vec3 { x: one, y: one, z: one }
    }
}

impl Material {
    /// The surface model is well-formed.
    pub open spec fn wf(self) -> bool {
        match self {
            Material::Lambertian(m) => m.wf(),
            Material::Metal(m) => m.wf(),
            Material::Dielectric(m) => m.wf(),
        }
    }

    /// The colour that the surface gives to a path which ends on it.
    pub open spec fn diffuse_color(self) -> Color {
        match self {
            Material::Lambertian(m) => m.albedo,
            Material::Metal(m) => m.albedo,
            Material::Dielectric(_) => white(),
        }
    }

    /// The colour returned for a path that is not followed further: the
    /// albedo of a diffuse or reflective surface, white for a clear one.
    pub fn diffuse(&self) -> (c: Color)
        ensures
            c == self.diffuse_color(),
            self.wf() ==> c.wf(),
    {
        match self {
            Material::Lambertian(m) => m.diffuse(),
            Material::Metal(m) => m.diffuse(),
            Material::Dielectric(m) => m.diffuse(),
        }
    }
}

/// The fifth power of `x`.
pub open spec fn fifth_power(x: int) -> int {
    x * x * x * x * x
}

/// The numerator of the reflectance of a surface at normal incidence,
/// `r0 = ((1 - ref_idx) / (1 + ref_idx))^2`, over `(ref_idx.den + ref_idx.num)^2`.
pub open spec fn base_reflectance_num(ref_idx: Ratio) -> int {
    (ref_idx.den - ref_idx.num) * (ref_idx.den - ref_idx.num)
}

/// The denominator of the reflectance at normal incidence.
pub open spec fn base_reflectance_den(ref_idx: Ratio) -> int {
    (ref_idx.den + ref_idx.num) * (ref_idx.den + ref_idx.num)
}

/// The numerator of Schlick's approximation `r0 + (1 - r0) * (1 - cosine)^5`,
/// over the denominator `base_reflectance_den(ref_idx) * cosine.den^5`.
pub open spec fn reflectance_num(cosine: Ratio, ref_idx: Ratio) -> int {
    base_reflectance_num(ref_idx) * fifth_power(cosine.den as int) + (base_reflectance_den(ref_idx)
        - base_reflectance_num(ref_idx)) * fifth_power(cosine.den - cosine.num)
}

/// The denominator of Schlick's approximation.
pub open spec fn reflectance_den(cosine: Ratio, ref_idx: Ratio) -> int {
    base_reflectance_den(ref_idx) * fifth_power(cosine.den as int)
}

/// The fifth power of a number of at most 17 bits.
fn power_five(x: i128) -> (p: i128)
    requires
        -0x2_0000 <= x <= 0x2_0000,
    ensures
        p == fifth_power(x as int),
        -0x20_0000_0000_0000_0000_0000 <= p <= 0x20_0000_0000_0000_0000_0000,
        x >= 0 ==> p >= 0,
        x > 0 ==> p > 0,
{
    let ghost b: int = 0x2_0000;
    proof {
        lemma_product_bound(x as int, x as int, b, b);
        lemma_product_bound(x * x, x as int, 0x4_0000_0000, b);
        lemma_product_bound(x * x * x, x as int, 0x8_0000_0000_0000, b);
        lemma_product_bound(x * x * x * x, x as int, 0x10_0000_0000_0000_0000, b);
        if x >= 0 {
            assert(x * x >= 0 && x * x * x >= 0 && x * x * x * x >= 0 && x * x * x * x * x >= 0)
                by (nonlinear_arith)
                requires
                    x >= 0,
            ;
        }
        if x > 0 {
            assert(x * x > 0 && x * x * x > 0 && x * x * x * x > 0 && x * x * x * x * x > 0)
                by (nonlinear_arith)
                requires
                    x > 0,
            ;
        }
    }
    x * x * x * x * x
}

/// Schlick's approximation of the share of light that a clear surface
/// reflects: `r0 + (1 - r0) * (1 - cosine)^5` with
/// `r0 = ((1 - ref_idx) / (1 + ref_idx))^2`, for the cosine of the angle of
/// incidence and the ratio of the refraction indices.
pub fn reflectance(cosine: Ratio, ref_idx: Ratio) -> (r: Ratio)
    requires
        cosine.within(0x1_0000),
        ref_idx.within(0x1_0000),
        ref_idx.num > 0,
    ensures
        r.num == reflectance_num(cosine, ref_idx),
        r.den == reflectance_den(cosine, ref_idx),
        r.wf(),
{
    let ghost b: int = 0x2_0000;
    proof {
        lemma_product_bound(ref_idx.den - ref_idx.num, ref_idx.den - ref_idx.num, b, b);
        lemma_product_bound(ref_idx.den + ref_idx.num, ref_idx.den + ref_idx.num, b, b);
        lemma_product_positive(ref_idx.den + ref_idx.num, ref_idx.den + ref_idx.num);
    }
    let r0_num: i128 = (ref_idx.den - ref_idx.num) * (ref_idx.den - ref_idx.num);
    let r0_den: i128 = (ref_idx.den + ref_idx.num) * (ref_idx.den + ref_idx.num);
    let whole: i128 = power_five(cosine.den);
    let part: i128 = power_five(cosine.den - cosine.num);
    proof {
        let e34: int = 0x4_0000_0000;
        let e85: int = 0x20_0000_0000_0000_0000_0000;
        lemma_product_bound(r0_num as int, whole as int, e34, e85);
        lemma_product_bound(r0_den - r0_num, part as int, 2 * e34, e85);
        lemma_product_bound(r0_den as int, whole as int, e34, e85);
        lemma_product_positive(r0_den as int, whole as int);
    }
    Ratio { num: r0_num * whole + (r0_den - r0_num) * part, den: r0_den * whole }
}

/// At normal incidence, where the cosine is one, Schlick's approximation is
/// `r0`; at grazing incidence, where the cosine is zero, it is one.
pub proof fn lemma_reflectance_at_the_ends(den: i128, ref_idx: Ratio)
    requires
        den > 0,
    ensures
        reflectance_num(Ratio { num: den, den }, ref_idx) * base_reflectance_den(ref_idx)
            == base_reflectance_num(ref_idx) * reflectance_den(Ratio { num: den, den }, ref_idx),
        reflectance_num(Ratio { num: 0, den }, ref_idx) == reflectance_den(
            Ratio { num: 0, den },
            ref_idx,
        ),
{
    let one = Ratio { num: den, den };
    let zero = Ratio { num: 0, den };
    let n = base_reflectance_num(ref_idx);
    let d = base_reflectance_den(ref_idx);
    let w = fifth_power(den as int);
    assert(fifth_power(0) == 0) by (nonlinear_arith)
        requires
            fifth_power(0) == 0 * 0 * 0 * 0 * 0,
    ;
    assert(reflectance_num(one, ref_idx) == n * w) by (nonlinear_arith)
        requires
            reflectance_num(one, ref_idx) == n * w + (d - n) * 0,
    ;
    assert((n * w) * d == n * (d * w)) by (nonlinear_arith);
    assert(reflectance_num(zero, ref_idx) == d * w) by (nonlinear_arith)
        requires
            reflectance_num(zero, ref_idx) == n * w + (d - n) * w,
    ;
}

/// The reflectance at normal incidence is the same from both sides of a
/// surface: `r0` of a ratio of indices and `r0` of its inverse are equal.
pub proof fn lemma_base_reflectance_of_inverse(ref_idx: Ratio)
    ensures
        base_reflectance_num(ref_idx.inverse()) == base_reflectance_num(ref_idx),
        base_reflectance_den(ref_idx.inverse()) == base_reflectance_den(ref_idx),
{
    let a = ref_idx.num as int;
    let b = ref_idx.den as int;
    assert((a - b) * (a - b) == (b - a) * (b - a)) by (nonlinear_arith);
    assert((a + b) * (a + b) == (b + a) * (b + a)) by (nonlinear_arith);
}

/// A component `c * k` over `w * k` is the component `m` over `v` where
/// `c` over `w` is.
proof fn lemma_same_direction(c: int, k: int, m: int, v: int, w: int)
    requires
        c * v == m * w,
    ensures
        (c * k) * v == m * (w * k),
{
    assert((c * k) * v == m * (w * k)) by (nonlinear_arith)
        requires
            c * v == m * w,
    ;
}

/// Full intensity in every channel, `(1, 1, 1)`.
pub open spec fn white() -> Color {
    ones()
}

} // verus!
