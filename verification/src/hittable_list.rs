use vstd::prelude::*;
use crate::hit_record::HitRecord;
use crate::ratio::{lemma_order_asymmetric, lemma_order_chain, lemma_order_reflexive, Ratio};
use crate::ray::Ray;
use crate::sphere::{at_least, consistent, fits_root, in_range, root_limit, Sphere};

verus! {

/// A scene: an ordered list of objects that only ever grows.
#[derive(Debug)]
pub struct HittableList {
    pub objects: Vec<Sphere>,
}

impl View for HittableList {
    type V = Seq<Sphere>;

    /// The objects in the order in which they were added.
    open spec fn view(&self) -> Seq<Sphere> {
        self.objects@
    }
}

impl HittableList {
    /// Every object is well-formed.
    pub open spec fn wf(self) -> bool {
        forall|i: int| 0 <= i < self@.len() ==> (#[trigger] self@[i]).wf()
    }

    /// The empty scene.
    pub fn new() -> (world: HittableList)
        ensures
            world@ == Seq::<Sphere>::empty(),
            world.wf(),
    {
        HittableList { objects: Vec::new() }
    }

    /// Appends an object; the objects before it stay as they are.
    pub fn add(&mut self, object: Sphere)
        ensures
            final(self)@ == old(self)@.push(object),
            old(self).wf() && object.wf() ==> final(self).wf(),
    {
        self.objects.push(object);
        proof {
            if old(self).wf() && object.wf() {
                assert forall|i: int| 0 <= i < self@.len() implies (#[trigger] self@[i]).wf() by {
                    if i < old(self)@.len() {
                        assert(old(self)@[i].wf());
                    }
                }
            }
        }
    }

    /// Every object is a small sphere.
    pub open spec fn is_small(self) -> bool {
        forall|i: int| 0 <= i < self@.len() ==> (#[trigger] self@[i]).is_small()
    }

    /// The hit of the ray on object `i` alone, in the whole range from
    /// `t_min` to `t_max`.
    pub open spec fn own_hit(
        self,
        i: int,
        r: Ray,
        t_min: Ratio,
        t_max: Option<Ratio>,
        roots: Seq<i128>,
    ) -> Option<HitRecord> {
        self@[i].hit_within(r, t_min, t_max, roots[i] as int)
    }

    /// The upper end of the range in which the next object is searched: the
    /// parameter of the closest hit so far, or `t_max` while nothing is hit.
    pub open spec fn limit(closest: Option<HitRecord>, t_max: Option<Ratio>) -> Option<Ratio> {
        match closest {
            Some(rec) => Some(rec.t),
            None => t_max,
        }
    }

    /// The closest hit of the ray among `objects`, for the square roots
    /// `roots` of the numerators of their discriminants. The objects are
    /// taken in order; each is searched in the range that ends at the closest
    /// hit so far, and replaces it where it is hit there.
    pub open spec fn closest_hit(
        objects: Seq<Sphere>,
        r: Ray,
        t_min: Ratio,
        t_max: Option<Ratio>,
        roots: Seq<i128>,
    ) -> Option<HitRecord>
        decreases objects.len(),
    {
        if objects.len() == 0 {
            None
        } else {
            let before = Self::closest_hit(
                objects.drop_last(),
                r,
                t_min,
                t_max,
                roots.drop_last(),
            );
            match objects.last().hit_within(
                r,
                t_min,
                Self::limit(before, t_max),
                roots.last() as int,
            ) {
                Some(rec) => Some(rec),
                None => before,
            }
        }
    }

    /// Intersects the ray with the scene: the hit that is nearest to the
    /// origin of the ray among the hits of all objects in the range from
    /// `t_min` to `t_max`, or nothing where no object is hit there. Of
    /// objects that are hit equally near, the last one in scene order is
    /// returned. Entry `i` of `roots` is the square root of the numerator of
    /// the discriminant of object `i`. The direction of the ray is not zero.
    pub fn hit(&self, r: Ray, t_min: Ratio, t_max: Option<Ratio>, roots: &Vec<i128>) -> (hit:
        Option<HitRecord>)
        requires
            self.is_small(),
            r.is_small(),
            r.direction.model().dot(r.direction.model()) > 0,
            roots@.len() == self@.len(),
            forall|i: int| 0 <= i < roots@.len() ==> 0 <= #[trigger] roots@[i] <= root_limit(),
            t_min.is_short(),
            t_max matches Some(max) ==> fits_root(max),
        ensures
            hit == Self::closest_hit(self@, r, t_min, t_max, roots@),
            hit matches Some(rec) ==> in_range(rec.t, t_min, t_max),
            hit matches Some(rec) ==> exists|i: int|
                0 <= i < self@.len() && #[trigger] self.own_hit(i, r, t_min, t_max, roots@) == hit,
            hit matches Some(rec) ==> forall|i: int|
                0 <= i < self@.len() && (#[trigger] self.own_hit(i, r, t_min, t_max, roots@))
                    is Some ==> !self.own_hit(i, r, t_min, t_max, roots@)->Some_0.t.less_than(
                    rec.t,
                ),
            hit is None ==> forall|i: int|
                0 <= i < self@.len() ==> (#[trigger] self.own_hit(i, r, t_min, t_max, roots@))
                    is None,
    {
        let mut closest: Option<HitRecord> = None;
        let mut so_far: Option<Ratio> = t_max;
        let mut k: usize = 0;
        while k < self.objects.len()
            invariant
                0 <= k <= self@.len(),
                self.is_small(),
                r.is_small(),
                r.direction.model().dot(r.direction.model()) > 0,
                roots@.len() == self@.len(),
                forall|i: int| 0 <= i < roots@.len() ==> 0 <= #[trigger] roots@[i] <= root_limit(),
                t_min.is_short(),
                t_max matches Some(max) ==> fits_root(max) && max.wf(),
                closest == Self::closest_hit(
                    self@.take(k as int),
                    r,
                    t_min,
                    t_max,
                    roots@.take(k as int),
                ),
                so_far == Self::limit(closest, t_max),
                so_far matches Some(max) ==> fits_root(max),
                closest matches Some(rec) ==> in_range(rec.t, t_min, t_max),
                closest matches Some(rec) ==> exists|i: int|
                    0 <= i < k && #[trigger] self.own_hit(i, r, t_min, t_max, roots@) == closest,
                forall|i: int|
                    0 <= i < k && (#[trigger] self.own_hit(i, r, t_min, t_max, roots@)) is Some
                        ==> self.own_hit(i, r, t_min, t_max, roots@)->Some_0.t.wf() && closest
                        is Some && !self.own_hit(i, r, t_min, t_max, roots@)->Some_0.t.less_than(
                        closest->Some_0.t,
                    ),
            decreases self@.len() - k,
        {
            proof {
                assert(self@.take(k + 1).drop_last() == self@.take(k as int));
                assert(roots@.take(k + 1).drop_last() == roots@.take(k as int));
                assert(self@.take(k + 1).last() == self@[k as int]);
                assert(roots@.take(k + 1).last() == roots@[k as int]);
            }
            let ghost before = closest;
            let ghost limit = so_far;
            let ghost own = self.own_hit(k as int, r, t_min, t_max, roots@);
            let found = self.objects[k].hit(r, t_min, so_far, roots[k]);
            proof {
                // the range searched ends no later than the whole range
                if t_max is Some {
                    if before is None {
                        lemma_order_reflexive(t_max->Some_0);
                    }
                }
                assert(at_least(t_max, limit));
                assert(consistent(found, own, limit));
                if own is Some {
                    assert(fits_root(own->Some_0.t));
                }
            }
            match found {
                Some(rec) => {
                    proof {
                        if limit is Some && t_max is Some {
                            lemma_order_chain(t_max->Some_0, limit->Some_0, rec.t);
                        }
                        lemma_order_reflexive(rec.t);
                        assert(self.own_hit(k as int, r, t_min, t_max, roots@) == Some(rec));
                        assert forall|i: int|
                            0 <= i < k + 1 && (#[trigger] self.own_hit(
                                i,
                                r,
                                t_min,
                                t_max,
                                roots@,
                            )) is Some implies self.own_hit(i, r, t_min, t_max, roots@)->Some_0.t.wf()
                            && !self.own_hit(i, r, t_min, t_max, roots@)->Some_0.t.less_than(
                            rec.t,
                        ) by {
                            if i < k {
                                let other = self.own_hit(i, r, t_min, t_max, roots@)->Some_0;
                                lemma_order_chain(other.t, before->Some_0.t, rec.t);
                            }
                        }
                    }
                    so_far = Some(rec.t);
                    closest = Some(rec);
                },
                None => {
                    proof {
                        if own is Some {
                            lemma_order_asymmetric(limit->Some_0, own->Some_0.t);
                        }
                    }
                },
            }
            k = k + 1;
        }
        assert(self@.take(k as int) == self@);
        assert(roots@.take(k as int) == roots@);
        closest
    }

    /// The number of objects.
    pub fn len(&self) -> (n: usize)
        ensures
            n == self@.len(),
    {
        self.objects.len()
    }
}

} // verus!
