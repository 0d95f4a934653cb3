use vstd::prelude::*;
use crate::material::Material;
use crate::ratio::Ratio;
use crate::ray::Ray;
use crate::vec3::{dot, Point3, Vec3};

verus! {

/// What an intersection test found: the point, the surface normal turned
/// against the incoming ray, the surface, the ray parameter of the point, and
/// whether the ray struck the outward face.
#[derive(Clone, Copy, Debug, PartialEq, Eq, Structural)]
pub struct HitRecord {
    pub p: Point3,
    pub normal: Vec3,
    pub material: Material,
    pub t: Ratio,
    pub front_face: bool,
}

/// The origin `(0, 0, 0)`.
pub open spec fn origin() -> Vec3 {
    Vec3 {
        x: Ratio { num: 0, den: 1 },
        y: Ratio { num: 0, den: 1 },
        z: Ratio { num: 0, den: 1 },
    }
}

impl HitRecord {
    /// An empty record for the given surface: point and normal at the origin,
    /// parameter zero, back face.
    pub fn new(material: Material) -> (rec: HitRecord)
        ensures
            rec == (HitRecord {
                p: origin(),
                normal: origin(),
                material,
                t: Ratio { num: 0, den: 1 },
                front_face: false,
            }),
    {
        let zero = Ratio::from_integer(0);
        let at_origin = Vec3 { x: zero, y: zero, z: zero };
        HitRecord { p: at_origin, normal: at_origin, material, t: zero, front_face: false }
    }

    /// Records which face the ray `r` struck, and stores the normal turned
    /// against the ray: the ray struck the front face if it runs against the
    /// outward normal, `r.direction . outward_normal < 0`; the stored normal is
    /// the outward normal then, and its opposite otherwise.
    pub fn set_face_normal(&mut self, r: Ray, outward_normal: Vec3)
        requires
            r.direction.is_short(),
            outward_normal.is_short(),
        ensures
            final(self).front_face == (r.direction.model().dot(outward_normal.model()) < 0),
            final(self).front_face ==> final(self).normal == outward_normal,
            !final(self).front_face ==> final(self).normal.model()
                == outward_normal.model().negated(),
            final(self).normal.is_short(),
            final(self).p == old(self).p,
            final(self).t == old(self).t,
            final(self).material == old(self).material,
            r.direction.model().dot(final(self).normal.model()) <= 0,
    {
        self.front_face = dot(r.direction, outward_normal).num < 0;
        self.normal = if self.front_face {
            outward_normal
        } else {
            outward_normal.neg()
        };
        proof {
            let d = r.direction.model();
            let n = outward_normal.model();
            assert(d.dot(n.negated()) == -d.dot(n)) by (nonlinear_arith)
                requires
                    d.dot(n) == d.x * n.x + d.y * n.y + d.z * n.z,
                    d.dot(n.negated()) == d.x * (-n.x) + d.y * (-n.y) + d.z * (-n.z),
            ;
        }
    }
}

} // verus!
