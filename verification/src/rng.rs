use vstd::prelude::*;
use crate::ratio::{
    lemma_interpolate_within, lemma_product_bound, lemma_product_positive, Ratio,
};
use crate::vec3::Vec3;

verus! {

/// The largest denominator of a draw, `2^53`: up to it every numerator is
/// exactly representable in double precision.
pub const MAX_SCALE: u64 = 0x20_0000_0000_0000;

/// A deterministic sample generator. One step replaces the state by
/// `(state * state / div) % modulo`; a draw takes two steps and combines them
/// into a fraction over `modulo * modulo`.
#[derive(Clone, Copy, Debug, PartialEq, Eq, Structural)]
pub struct RandomNumberGenerator {
    pub state: u64,
    pub div: u64,
    pub modulo: u64,
}

/// What a rejection sampler found within its budget of attempts, and the
/// generator it left behind.
pub struct Search {
    pub found: Option<Vec3>,
    pub rng: RandomNumberGenerator,
}

impl RandomNumberGenerator {
    /// The parameters admit the arithmetic of a step and of a draw: the state
    /// can be squared in 64 bits, both divisors are non-zero, and the
    /// denominator of a draw is at most `MAX_SCALE`.
    pub open spec fn wf(self) -> bool {
        &&& self.state <= u32::MAX
        &&& self.div > 0
        &&& self.modulo > 0
        &&& self.modulo * self.modulo <= MAX_SCALE
    }

    /// The denominator of every draw, `modulo * modulo`.
    pub open spec fn scale(self) -> int {
        self.modulo * self.modulo
    }

    /// The generator after one step.
    pub open spec fn advanced(self) -> RandomNumberGenerator {
        RandomNumberGenerator {
            state: ((self.state * self.state / (self.div as int)) % (self.modulo as int)) as u64,
            div: self.div,
            modulo: self.modulo,
        }
    }

    /// The generator after `n` draws, that is after `2 * n` steps.
    pub open spec fn after_draws(self, n: nat) -> RandomNumberGenerator
        decreases n,
    {
        if n == 0 {
            self
        } else {
            self.advanced().advanced().after_draws((n - 1) as nat)
        }
    }

    /// The numerator of the next draw: the state after one step, times
    /// `modulo`, plus the state after two steps.
    pub open spec fn draw(self) -> int {
        self.advanced().state * self.modulo + self.advanced().advanced().state
    }

    /// The next draw as a fraction in `[0, 1)`.
    pub open spec fn draw_ratio(self) -> Ratio {
        Ratio { num: self.draw() as i128, den: self.scale() as i128 }
    }

    /// The value that `random_range(min, max)` returns from this state.
    pub open spec fn range_ratio(self, min: Ratio, max: Ratio) -> Ratio {
        Ratio::interpolate(min, max, self.draw_ratio())
    }

    /// The vector that `random_vec3` returns from this state.
    pub open spec fn vec3(self) -> Vec3 {
        Vec3 {
            x: self.draw_ratio(),
            y: self.after_draws(1).draw_ratio(),
            z: self.after_draws(2).draw_ratio(),
        }
    }

    /// The vector that `random_vec3_range(min, max)` returns from this state.
    pub open spec fn vec3_range(self, min: Ratio, max: Ratio) -> Vec3 {
        Vec3 {
            x: self.range_ratio(min, max),
            y: self.after_draws(1).range_ratio(min, max),
            z: self.after_draws(2).range_ratio(min, max),
        }
    }

    /// The point of the cube `[-1, 1)^3` that one attempt at sampling the unit
    /// sphere examines.
    pub open spec fn sphere_candidate(self) -> Vec3 {
        self.vec3_range(Ratio { num: -1i128, den: 1 }, Ratio { num: 1, den: 1 })
    }

    /// The point of the square `[-1, 1)^2`, in the plane `z = 0`, that one
    /// attempt at sampling the unit disk examines.
    pub open spec fn disk_candidate(self) -> Vec3 {
        Vec3 {
            x: self.range_ratio(Ratio { num: -1i128, den: 1 }, Ratio { num: 1, den: 1 }),
            y: self.after_draws(1).range_ratio(Ratio { num: -1i128, den: 1 }, Ratio { num: 1, den: 1 }),
            z: Ratio { num: 0, den: 1 },
        }
    }

    /// The number of attempts that a rejection sampler makes before it gives
    /// up. A state after the first step is below `modulo`, so within this many
    /// attempts the generator has come back to a state it started an attempt
    /// from before.
    pub open spec fn attempts(self) -> nat {
        (self.modulo + 1) as nat
    }

    /// Rejection sampling of the unit sphere with a budget of attempts: the
    /// first candidate inside the sphere, with the generator after the three
    /// draws that made it; nothing once the budget is spent.
    pub open spec fn sphere_search(self, budget: nat) -> Search
        decreases budget,
    {
        if budget == 0 {
            Search { found: None, rng: self }
        } else if self.sphere_candidate().inside_unit_sphere() {
            Search { found: Some(self.sphere_candidate()), rng: self.after_draws(3) }
        } else {
            self.after_draws(3).sphere_search((budget - 1) as nat)
        }
    }

    /// Rejection sampling of the unit disk with a budget of attempts: the
    /// first candidate inside the disk, with the generator after the two draws
    /// that made it; nothing once the budget is spent.
    pub open spec fn disk_search(self, budget: nat) -> Search
        decreases budget,
    {
        if budget == 0 {
            Search { found: None, rng: self }
        } else if self.disk_candidate().inside_unit_disk() {
            Search { found: Some(self.disk_candidate()), rng: self.after_draws(2) }
        } else {
            self.after_draws(2).disk_search((budget - 1) as nat)
        }
    }

    /// From a well-formed state the next state is below `modulo`, and the next
    /// draw is a fraction in `[0, 1)` over `modulo * modulo`.
    pub proof fn lemma_draw_in_unit_interval(self)
        requires
            self.wf(),
        ensures
            self.advanced().wf(),
            self.advanced().state < self.modulo,
            self.after_draws(1).wf(),
            self.after_draws(1).modulo == self.modulo,
            self.after_draws(1).div == self.div,
            0 <= self.draw() < self.scale(),
            self.draw_ratio().num == self.draw(),
            self.draw_ratio().den == self.scale(),
            self.draw_ratio().in_unit_interval(),
    {
        reveal_with_fuel(RandomNumberGenerator::after_draws, 2);
        lemma_modulo_bound(self.modulo);
        lemma_modulo_bound(self.advanced().modulo);
        lemma_draw_bound(
            self.advanced().state as int,
            self.advanced().advanced().state as int,
            self.modulo as int,
        );
    }

    /// The generator with the fixed seed `675248`, divisor `1000` and modulus
    /// `1000000`.
    pub fn create() -> (rng: RandomNumberGenerator)
        ensures
            rng == (RandomNumberGenerator { state: 675248, div: 1000, modulo: 1000000 }),
            rng.wf(),
    {
        RandomNumberGenerator { state: 675248, div: 1000, modulo: 1000000 }
    }

    /// Whether the parameters admit the arithmetic of a step and of a draw.
    pub fn is_wf(&self) -> (b: bool)
        ensures
            b == self.wf(),
    {
        if self.state > 0xFFFF_FFFF || self.div == 0 || self.modulo == 0 {
            return false;
        }
        if self.modulo > 0xFFFF_FFFF {
            assert(self.modulo * self.modulo > MAX_SCALE) by (nonlinear_arith)
                requires
                    self.modulo > 0xFFFF_FFFF,
            ;
            return false;
        }
        assert(self.modulo * self.modulo <= u64::MAX) by (nonlinear_arith)
            requires
                self.modulo <= 0xFFFF_FFFF,
        ;
        self.modulo * self.modulo <= MAX_SCALE
    }

    /// Takes one step and returns the new state.
    pub fn next(&mut self) -> (r: u64)
        requires
            old(self).wf(),
        ensures
            *final(self) == old(self).advanced(),
            r == final(self).state,
            r < old(self).modulo,
            final(self).wf(),
    {
        proof {
            lemma_square_fits(self.state);
            lemma_modulo_bound(self.modulo);
        }
        self.state = self.state * self.state / self.div % self.modulo;
        self.state
    }

    /// Draws the next fraction in `[0, 1)`: two steps `t1`, `t2` give
    /// `(t1 * modulo + t2) / (modulo * modulo)`.
    pub fn random_double(&mut self) -> (r: Ratio)
        requires
            old(self).wf(),
        ensures
            *final(self) == old(self).after_draws(1),
            r == old(self).draw_ratio(),
            r.den == old(self).scale(),
            r.in_unit_interval(),
            final(self).wf(),
    {
        let ghost start = *self;
        let t1: u64 = self.next();
        let t2: u64 = self.next();
        proof {
            lemma_draw_bound(t1 as int, t2 as int, self.modulo as int);
            reveal_with_fuel(RandomNumberGenerator::after_draws, 2);
        }
        let scale: u64 = self.modulo * self.modulo;
        Ratio { num: (t1 * self.modulo + t2) as i128, den: scale as i128 }
    }

    /// Draws a fraction and scales it into `[min, max)`: the result is
    /// `min + (max - min) * d` for the draw `d`, over the denominator
    /// `min.den * max.den * modulo * modulo`.
    pub fn random_range(&mut self, min: Ratio, max: Ratio) -> (r: Ratio)
        requires
            old(self).wf(),
            min.wf(),
            max.wf(),
            min.is_short(),
            max.is_short(),
        ensures
            *final(self) == old(self).after_draws(1),
            r == old(self).range_ratio(min, max),
            r.wf(),
            !max.less_than(min) ==> !r.less_than(min) && !max.less_than(r),
            min.less_than(max) ==> r.less_than(max),
            final(self).wf(),
    {
        let d = self.random_double();
        proof {
            if !max.less_than(min) {
                lemma_interpolate_within(min, max, d);
            }
        }
        proof {
            lemma_product_bound(min.num as int, max.den as int, 0x8000_0000, 0x8000_0000);
            lemma_product_bound(max.num as int, min.den as int, 0x8000_0000, 0x8000_0000);
            lemma_product_bound(min.den as int, max.den as int, 0x8000_0000, 0x8000_0000);
            lemma_product_positive(min.den as int, max.den as int);
        }
        let base: i128 = min.num * max.den;
        let span: i128 = max.num * min.den - base;
        let den: i128 = min.den * max.den;
        proof {
            lemma_product_bound(
                base as int,
                d.den as int,
                0x4000_0000_0000_0000,
                0x20_0000_0000_0000,
            );
            lemma_product_bound(
                span as int,
                d.num as int,
                0x8000_0000_0000_0000,
                0x20_0000_0000_0000,
            );
            lemma_product_bound(
                den as int,
                d.den as int,
                0x4000_0000_0000_0000,
                0x20_0000_0000_0000,
            );
            lemma_product_positive(den as int, d.den as int);
        }
        Ratio { num: base * d.den + span * d.num, den: den * d.den }
    }

    /// Draws three fractions in `[0, 1)`, for `x`, `y` and `z` in this order.
    pub fn random_vec3(&mut self) -> (v: Vec3)
        requires
            old(self).wf(),
        ensures
            *final(self) == old(self).after_draws(3),
            v == old(self).vec3(),
            v.wf(),
            v.over(old(self).scale()),
            v.x.in_unit_interval() && v.y.in_unit_interval() && v.z.in_unit_interval(),
            final(self).wf(),
    {
        proof {
            reveal_with_fuel(RandomNumberGenerator::after_draws, 4);
        }
        let x = self.random_double();
        let y = self.random_double();
        let z = self.random_double();
        Vec3 { x, y, z }
    }

    /// Draws three fractions and scales each into `[min, max)`, for `x`, `y`
    /// and `z` in this order.
    pub fn random_vec3_range(&mut self, min: Ratio, max: Ratio) -> (v: Vec3)
        requires
            old(self).wf(),
            min.wf(),
            max.wf(),
            min.is_short(),
            max.is_short(),
        ensures
            *final(self) == old(self).after_draws(3),
            v == old(self).vec3_range(min, max),
            v.wf(),
            final(self).wf(),
    {
        proof {
            reveal_with_fuel(RandomNumberGenerator::after_draws, 4);
        }
        let x = self.random_range(min, max);
        let y = self.random_range(min, max);
        let z = self.random_range(min, max);
        Vec3 { x, y, z }
    }

    /// Draws a fraction and scales it into `[-1, 1)`: for the draw `n / d` the
    /// result is `(2 * n - d) / d`.
    fn random_signed_unit(&mut self) -> (r: Ratio)
        requires
            old(self).wf(),
        ensures
            *final(self) == old(self).after_draws(1),
            r == old(self).range_ratio(Ratio { num: -1i128, den: 1 }, Ratio { num: 1, den: 1 }),
            r.den == old(self).scale(),
            -r.den <= r.num < r.den,
            final(self).wf(),
    {
        proof {
            self.lemma_draw_in_unit_interval();
            let t = self.draw_ratio();
            let one = Ratio { num: 1, den: 1 };
            let minus_one = Ratio { num: -1i128, den: 1 };
            assert(minus_one.den * one.den * t.den == t.den) by (nonlinear_arith)
                requires
                    minus_one.den == 1,
                    one.den == 1,
            ;
            assert(minus_one.num * one.den * t.den + (one.num * minus_one.den - minus_one.num
                * one.den) * t.num == 2 * t.num - t.den) by (nonlinear_arith)
                requires
                    minus_one.den == 1,
                    one.den == 1,
                    minus_one.num == -1,
                    one.num == 1,
            ;
        }
        self.random_range(Ratio::from_integer(-1), Ratio::from_integer(1))
    }

    /// Samples a point inside the unit sphere by rejection: draws points of
    /// the cube `[-1, 1)^3` until one has a squared length below one, and
    /// returns the first such point. Gives up after `modulo + 1` rejected
    /// attempts, and returns `None` then: by that time the generator repeats
    /// itself, so that no later attempt could be accepted either.
    pub fn random_in_unit_sphere(&mut self) -> (r: Option<Vec3>)
        requires
            old(self).wf(),
        ensures
            r == old(self).sphere_search(old(self).attempts()).found,
            *final(self) == old(self).sphere_search(old(self).attempts()).rng,
            r matches Some(p) ==> p.wf() && p.inside_unit_sphere(),
            r is None <==> forall|j: nat| #[trigger] old(self).sphere_rejects(j),
            final(self).wf(),
    {
        let ghost start = *self;
        proof {
            lemma_modulo_bound(self.modulo);
        }
        let mut left: u64 = self.modulo + 1;
        while left > 0
            invariant
                start == *old(self),
                self.wf(),
                self.modulo == start.modulo,
                left <= start.modulo + 1,
                self.sphere_search(left as nat) == start.sphere_search(start.attempts()),
            decreases left,
        {
            proof {
                reveal_with_fuel(RandomNumberGenerator::after_draws, 4);
                lemma_modulo_bound(self.modulo);
            }
            let ghost before = *self;
            let x = self.random_signed_unit();
            let y = self.random_signed_unit();
            let z = self.random_signed_unit();
            let p = Vec3 { x, y, z };
            assert(p == before.sphere_candidate());
            proof {
                lemma_product_bound(x.num as int, x.num as int, x.den as int, x.den as int);
                lemma_product_bound(y.num as int, y.num as int, x.den as int, x.den as int);
                lemma_product_bound(z.num as int, z.num as int, x.den as int, x.den as int);
                lemma_product_bound(
                    x.den as int,
                    x.den as int,
                    0x20_0000_0000_0000,
                    0x20_0000_0000_0000,
                );
            }
            if x.num * x.num + y.num * y.num + z.num * z.num < x.den * x.den {
                proof {
                    start.lemma_sphere_search_none(start.attempts());
                }
                return Some(p);
            }
            left = left - 1;
        }
        proof {
            assert forall|j: nat| #[trigger] start.sphere_rejects(j) by {
                start.lemma_sphere_search_none(start.attempts());
                let back = start.lemma_orbit_returns(3, j);
                assert(start.sphere_rejects(back));
            }
        }
        None
    }

    /// Samples a point inside the unit disk of the plane `z = 0` by rejection:
    /// draws points of the square `[-1, 1)^2` until one has a squared length
    /// below one, and returns the first such point. Gives up after
    /// `modulo + 1` rejected attempts, and returns `None` then: by that time
    /// the generator repeats itself, so that no later attempt could be
    /// accepted either.
    pub fn random_in_unit_disk(&mut self) -> (r: Option<Vec3>)
        requires
            old(self).wf(),
        ensures
            r == old(self).disk_search(old(self).attempts()).found,
            *final(self) == old(self).disk_search(old(self).attempts()).rng,
            r matches Some(p) ==> p.wf() && p.inside_unit_disk(),
            r is None <==> forall|j: nat| #[trigger] old(self).disk_rejects(j),
            final(self).wf(),
    {
        let ghost start = *self;
        proof {
            lemma_modulo_bound(self.modulo);
        }
        let mut left: u64 = self.modulo + 1;
        while left > 0
            invariant
                start == *old(self),
                self.wf(),
                self.modulo == start.modulo,
                left <= start.modulo + 1,
                self.disk_search(left as nat) == start.disk_search(start.attempts()),
            decreases left,
        {
            proof {
                reveal_with_fuel(RandomNumberGenerator::after_draws, 3);
                lemma_modulo_bound(self.modulo);
            }
            let ghost before = *self;
            let x = self.random_signed_unit();
            let y = self.random_signed_unit();
            let p = Vec3 { x, y, z: Ratio::from_integer(0) };
            assert(p == before.disk_candidate());
            proof {
                lemma_product_bound(x.num as int, x.num as int, x.den as int, x.den as int);
                lemma_product_bound(y.num as int, y.num as int, x.den as int, x.den as int);
                lemma_product_bound(
                    x.den as int,
                    x.den as int,
                    0x20_0000_0000_0000,
                    0x20_0000_0000_0000,
                );
            }
            if x.num * x.num + y.num * y.num < x.den * x.den {
                proof {
                    start.lemma_disk_search_none(start.attempts());
                }
                return Some(p);
            }
            left = left - 1;
        }
        proof {
            assert forall|j: nat| #[trigger] start.disk_rejects(j) by {
                start.lemma_disk_search_none(start.attempts());
                let back = start.lemma_orbit_returns(2, j);
                assert(start.disk_rejects(back));
            }
        }
        None
    }
}

/// A state of at most 32 bits can be squared in 64 bits.
pub proof fn lemma_square_fits(state: u64)
    requires
        state <= u32::MAX,
    ensures
        state * state <= u64::MAX,
{
    assert(state * state <= u64::MAX) by (nonlinear_arith)
        requires
            state <= 0xFFFF_FFFF,
    ;
}

/// A modulus whose square is at most `MAX_SCALE` is below `2^27`.
pub proof fn lemma_modulo_bound(modulo: u64)
    requires
        modulo * modulo <= MAX_SCALE,
    ensures
        modulo < 0x800_0000,
{
    assert(modulo < 0x800_0000) by (nonlinear_arith)
        requires
            modulo * modulo <= 0x20_0000_0000_0000,
    ;
}

/// Two states below `modulo` combine into a numerator below `modulo * modulo`.
pub proof fn lemma_draw_bound(t1: int, t2: int, modulo: int)
    requires
        0 <= t1 < modulo,
        0 <= t2 < modulo,
    ensures
        0 <= t1 * modulo,
        0 <= t1 * modulo + t2 < modulo * modulo,
{
    assert(0 <= t1 * modulo && t1 * modulo + t2 < modulo * modulo) by (nonlinear_arith)
        requires
            0 <= t1 < modulo,
            0 <= t2 < modulo,
    ;
}

} // verus!
