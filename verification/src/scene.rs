use vstd::prelude::*;
use crate::hittable_list::HittableList;
use crate::material::{Dielectric, Lambertian, Material, Metal};
use crate::ratio::{lemma_product_bound, Ratio};
use crate::rng::{RandomNumberGenerator, MAX_SCALE};
use crate::sphere::Sphere;
use crate::vec3::{Point3, Vec3};

verus! {

/// The fraction `num / den`, for use in contracts.
pub open spec fn ratio(num: int, den: int) -> Ratio {
    Ratio { num: num as i128, den: den as i128 }
}

/// The point `(x, y, z)` with whole-number coordinates.
pub open spec fn lattice_point(x: int, y: int, z: int) -> Point3 {
    Vec3 { x: ratio(x, 1), y: ratio(y, 1), z: ratio(z, 1) }
}

/// The ground: a grey diffuse sphere of radius 1000 that touches the origin
/// from below.
pub open spec fn ground() -> Sphere {
    Sphere {
        center: lattice_point(0, -1000, 0),
        radius: ratio(1000, 1),
        material: Material::Lambertian(
            Lambertian { albedo: Vec3 { x: ratio(1, 2), y: ratio(1, 2), z: ratio(1, 2) } },
        ),
    }
}

/// The glass sphere of radius 1 at `(0, 1, 0)`, with refraction index 3/2.
pub open spec fn glass_feature() -> Sphere {
    Sphere {
        center: lattice_point(0, 1, 0),
        radius: ratio(1, 1),
        material: Material::Dielectric(Dielectric { ir: ratio(3, 2) }),
    }
}

/// The brown diffuse sphere of radius 1 at `(-4, 1, 0)`.
pub open spec fn diffuse_feature() -> Sphere {
    Sphere {
        center: lattice_point(-4, 1, 0),
        radius: ratio(1, 1),
        material: Material::Lambertian(
            Lambertian { albedo: Vec3 { x: ratio(2, 5), y: ratio(1, 5), z: ratio(1, 10) } },
        ),
    }
}

/// The polished metal sphere of radius 1 at `(4, 1, 0)`.
pub open spec fn metal_feature() -> Sphere {
    Sphere {
        center: lattice_point(4, 1, 0),
        radius: ratio(1, 1),
        material: Material::Metal(
            Metal {
                albedo: Vec3 { x: ratio(7, 10), y: ratio(3, 5), z: ratio(1, 2) },
                fuzz: ratio(0, 1),
            },
        ),
    }
}

/// The three large spheres that every scene ends with.
pub open spec fn features() -> Seq<Sphere> {
    seq![glass_feature(), diffuse_feature(), metal_feature()]
}

fn make_ground() -> (s: Sphere)
    ensures
        s == ground(),
        s.wf(),
{
    let half = Ratio::new(1, 2);
    Sphere {
        center: Vec3 {
            x: Ratio::from_integer(0),
            y: Ratio::from_integer(-1000),
            z: Ratio::from_integer(0),
        },
        radius: Ratio::from_integer(1000),
        material: Material::Lambertian(Lambertian { albedo: Vec3 { x: half, y: half, z: half } }),
    }
}

fn add_features(world: &mut HittableList)
    ensures
        final(world)@ == old(world)@ + features(),
        old(world).wf() ==> final(world).wf(),
{
    let zero = Ratio::from_integer(0);
    let one = Ratio::from_integer(1);
    world.add(
        Sphere {
            center: Vec3 { x: zero, y: one, z: zero },
            radius: one,
            material: Material::Dielectric(Dielectric { ir: Ratio::new(3, 2) }),
        },
    );
    world.add(
        Sphere {
            center: Vec3 { x: Ratio::from_integer(-4), y: one, z: zero },
            radius: one,
            material: Material::Lambertian(
                Lambertian {
                    albedo: Vec3 { x: Ratio::new(2, 5), y: Ratio::new(1, 5), z: Ratio::new(1, 10) },
                },
            ),
        },
    );
    world.add(
        Sphere {
            center: Vec3 { x: Ratio::from_integer(4), y: one, z: zero },
            radius: one,
            material: Material::Metal(
                Metal {
                    albedo: Vec3 { x: Ratio::new(7, 10), y: Ratio::new(3, 5), z: Ratio::new(1, 2) },
                    fuzz: zero,
                },
            ),
        },
    );
}

/// The fixed demonstration scene: the ground, then a glass, a diffuse and a
/// metal sphere of radius 1 side by side.
pub fn simple_scene() -> (world: HittableList)
    ensures
        world@ == seq![ground()] + features(),
        world@.len() == 4,
        world.wf(),
{
    let mut world = HittableList::new();
    world.add(make_ground());
    add_features(&mut world);
    world
}

/// The coordinate `base + 9/10 * t`, over the denominator `10 * t.den`.
pub open spec fn jittered(base: int, t: Ratio) -> Ratio {
    Ratio { num: (10 * base * t.den + 9 * t.num) as i128, den: (10 * t.den) as i128 }
}

/// The centre of the small sphere of grid cell `(a, b)`: the cell's corner
/// moved by 9/10 of a draw along `x` and of the next draw along `z`, at height
/// 1/5.
pub open spec fn cell_center(rng: RandomNumberGenerator, a: int, b: int) -> Point3 {
    Vec3 {
        x: jittered(a, rng.draw_ratio()),
        y: ratio(1, 5),
        z: jittered(b, rng.after_draws(1).draw_ratio()),
    }
}

/// A centre at height 1/5 is farther than 9/10 from the point `(4, 1/5, 0)`:
/// `(x - 4)^2 + z^2 > 81/100`, for `x` and `z` over a shared denominator.
pub open spec fn keeps_clear(c: Point3) -> bool {
    100 * ((c.x.num - 4 * c.x.den) * (c.x.num - 4 * c.x.den) + c.z.num * c.z.num) > 81 * (c.x.den
        * c.x.den)
}

/// The draw `t` selects a diffuse surface: `t < 8/10`.
pub open spec fn selects_diffuse(t: Ratio) -> bool {
    5 * t.num < 4 * t.den
}

/// The draw `t` selects a metal surface: `8/10 <= t < 95/100`.
pub open spec fn selects_metal(t: Ratio) -> bool {
    !selects_diffuse(t) && 20 * t.num < 19 * t.den
}

/// The surface of a small sphere. One draw selects the kind. A diffuse
/// surface then draws its albedo from `[0, 1)^3`; a metal one draws its albedo
/// from `[1/2, 1)^3` and its roughness from `[0, 1/2)`; glass draws nothing.
pub open spec fn cell_material(rng: RandomNumberGenerator) -> Material {
    let t = rng.draw_ratio();
    let next = rng.after_draws(1);
    if selects_diffuse(t) {
        Material::Lambertian(Lambertian { albedo: next.vec3() })
    } else if selects_metal(t) {
        Material::Metal(
            Metal {
                albedo: next.vec3_range(ratio(1, 2), ratio(1, 1)),
                fuzz: next.after_draws(3).range_ratio(ratio(0, 1), ratio(1, 2)),
            },
        )
    } else {
        Material::Dielectric(Dielectric { ir: ratio(3, 2) })
    }
}

/// The generator after the draws of `cell_material`.
pub open spec fn after_material(rng: RandomNumberGenerator) -> RandomNumberGenerator {
    let t = rng.draw_ratio();
    let next = rng.after_draws(1);
    if selects_diffuse(t) {
        next.after_draws(3)
    } else if selects_metal(t) {
        next.after_draws(3).after_draws(1)
    } else {
        next
    }
}

/// What one grid cell contributes, and the generator it leaves behind.
pub struct Placement {
    pub sphere: Option<Sphere>,
    pub rng: RandomNumberGenerator,
}

/// Grid cell `(a, b)`: two draws place the centre. A centre that keeps clear
/// of the point `(4, 1/5, 0)` gets a sphere of radius 1/5 with a drawn
/// surface; any other centre is dropped and draws nothing more.
pub open spec fn place(rng: RandomNumberGenerator, a: int, b: int) -> Placement {
    let center = cell_center(rng, a, b);
    let next = rng.after_draws(1).after_draws(1);
    if keeps_clear(center) {
        Placement {
            sphere: Some(Sphere { center, radius: ratio(1, 5), material: cell_material(next) }),
            rng: after_material(next),
        }
    } else {
        Placement { sphere: None, rng: next }
    }
}

/// The small spheres of the first `cells` grid cells, and the generator after
/// them. Cell `k` is `(k / 22 - 11, k % 22 - 11)`: the grid is walked row by
/// row, each row from `-11` to `10`.
pub open spec fn grid(rng: RandomNumberGenerator, cells: nat) -> (Seq<Sphere>, RandomNumberGenerator)
    decreases cells,
{
    if cells == 0 {
        (Seq::empty(), rng)
    } else {
        let k = (cells - 1) as nat;
        let before = grid(rng, k);
        let cell = place(before.1, k as int / 22 - 11, k as int % 22 - 11);
        match cell.sphere {
            Some(sphere) => (before.0.push(sphere), cell.rng),
            None => (before.0, cell.rng),
        }
    }
}

/// The number of grid cells, 22 rows of 22.
pub open spec fn grid_cells() -> nat {
    484
}

/// Draws the surface of a small sphere.
fn random_material(rng: &mut RandomNumberGenerator) -> (m: Material)
    requires
        old(rng).wf(),
    ensures
        m == cell_material(*old(rng)),
        *final(rng) == after_material(*old(rng)),
        m.wf(),
        final(rng).wf(),
{
    let choose_mat = rng.random_double();
    if 5 * choose_mat.num < 4 * choose_mat.den {
        let albedo = rng.random_vec3();
        Material::Lambertian(Lambertian { albedo })
    } else if 20 * choose_mat.num < 19 * choose_mat.den {
        let ghost next = *rng;
        let albedo = rng.random_vec3_range(Ratio::new(1, 2), Ratio::from_integer(1));
        proof {
            rng.lemma_draw_in_unit_interval();
            let t = rng.draw_ratio();
            let zero = Ratio { num: 0, den: 1 };
            let half = Ratio { num: 1, den: 2 };
            assert(zero.den * half.den * t.den == 2 * t.den) by (nonlinear_arith)
                requires
                    zero.den == 1,
                    half.den == 2,
            ;
            assert(zero.num * half.den * t.den + (half.num * zero.den - zero.num * half.den)
                * t.num == t.num) by (nonlinear_arith)
                requires
                    zero.den == 1,
                    half.den == 2,
                    zero.num == 0,
                    half.num == 1,
            ;
        }
        let fuzz = rng.random_range(Ratio::from_integer(0), Ratio::new(1, 2));
        Material::Metal(Metal { albedo, fuzz })
    } else {
        Material::Dielectric(Dielectric { ir: Ratio::new(3, 2) })
    }
}

/// Fills one grid cell.
fn place_sphere(rng: &mut RandomNumberGenerator, a: i64, b: i64) -> (r: Option<Sphere>)
    requires
        old(rng).wf(),
        -11 <= a < 11,
        -11 <= b < 11,
    ensures
        r == place(*old(rng), a as int, b as int).sphere,
        *final(rng) == place(*old(rng), a as int, b as int).rng,
        r matches Some(sphere) ==> sphere.wf() && keeps_clear(sphere.center) && sphere.radius
            == ratio(1, 5),
        final(rng).wf(),
{
    proof {
        rng.lemma_draw_in_unit_interval();
    }
    let dx = rng.random_double();
    let dz = rng.random_double();
    let scale: i128 = dx.den;
    assert(dz.den == scale);
    let ten_a: i128 = 10 * (a as i128);
    let ten_b: i128 = 10 * (b as i128);
    proof {
        lemma_product_bound(ten_a as int, scale as int, 110, MAX_SCALE as int);
        lemma_product_bound(ten_b as int, scale as int, 110, MAX_SCALE as int);
        assert(10 * (a as int) * scale == ten_a * scale);
        assert(10 * (b as int) * scale == ten_b * scale);
    }
    let x = Ratio { num: ten_a * scale + 9 * dx.num, den: 10 * scale };
    let z = Ratio { num: ten_b * scale + 9 * dz.num, den: 10 * scale };
    let center = Vec3 { x, y: Ratio::new(1, 5), z };
    assert(center == cell_center(*old(rng), a as int, b as int));
    let off_x: i128 = x.num - 40 * scale;
    let off_z: i128 = z.num;
    proof {
        let bound: int = 159 * MAX_SCALE;
        lemma_product_bound(off_x as int, off_x as int, bound, bound);
        lemma_product_bound(off_z as int, off_z as int, bound, bound);
        lemma_product_bound(scale as int, scale as int, MAX_SCALE as int, MAX_SCALE as int);
        assert(x.den * x.den == 100 * (scale * scale)) by (nonlinear_arith)
            requires
                x.den == 10 * scale,
        ;
        assert(x.num - 4 * x.den == off_x);
    }
    if off_x * off_x + off_z * off_z > 81 * (scale * scale) {
        let material = random_material(rng);
        Some(Sphere { center, radius: Ratio::new(1, 5), material })
    } else {
        None
    }
}

/// The large scene: the ground, then for each of the 22 x 22 grid cells
/// `(a, b)`, `a` and `b` from `-11` to `10` with `b` running fastest, a small
/// sphere of radius 1/5 near `(a, 1/5, b)` unless it would come too close to
/// `(4, 1/5, 0)`, then the three large spheres. All positions and surfaces of
/// the small spheres come from `rng`.
pub fn random_scene(rng: &mut RandomNumberGenerator) -> (world: HittableList)
    requires
        old(rng).wf(),
    ensures
        world@ == seq![ground()] + grid(*old(rng), grid_cells()).0 + features(),
        *final(rng) == grid(*old(rng), grid_cells()).1,
        4 <= world@.len() <= 488,
        world.wf(),
        final(rng).wf(),
        forall|i: int|
            1 <= i < world@.len() - 3 ==> (#[trigger] world@[i]).radius == ratio(1, 5)
                && keeps_clear(world@[i].center),
{
    let ghost start = *rng;
    let mut world = HittableList::new();
    world.add(make_ground());
    assert(world@ =~= seq![ground()] + grid(start, 0).0);
    let mut a: i64 = -11;
    while a < 11
        invariant
            -11 <= a <= 11,
            rng.wf(),
            world.wf(),
            world@ == seq![ground()] + grid(start, ((a + 11) * 22) as nat).0,
            *rng == grid(start, ((a + 11) * 22) as nat).1,
            1 <= world@.len() <= 1 + (a + 11) * 22,
            forall|i: int|
                1 <= i < world@.len() ==> (#[trigger] world@[i]).radius == ratio(1, 5)
                    && keeps_clear(world@[i].center),
        decreases 11 - a,
    {
        let mut b: i64 = -11;
        while b < 11
            invariant
                -11 <= a < 11,
                -11 <= b <= 11,
                rng.wf(),
                world.wf(),
                world@ == seq![ground()] + grid(start, ((a + 11) * 22 + (b + 11)) as nat).0,
                *rng == grid(start, ((a + 11) * 22 + (b + 11)) as nat).1,
                1 <= world@.len() <= 1 + (a + 11) * 22 + (b + 11),
                forall|i: int|
                    1 <= i < world@.len() ==> (#[trigger] world@[i]).radius == ratio(1, 5)
                        && keeps_clear(world@[i].center),
            decreases 11 - b,
        {
            let ghost k = ((a + 11) * 22 + (b + 11)) as nat;
            let ghost before = grid(start, k);
            assert(k as int / 22 - 11 == a && k as int % 22 - 11 == b);
            assert(grid(start, k + 1) == {
                let cell = place(before.1, a as int, b as int);
                match cell.sphere {
                    Some(sphere) => (before.0.push(sphere), cell.rng),
                    None => (before.0, cell.rng),
                }
            });
            match place_sphere(rng, a, b) {
                Some(sphere) => {
                    world.add(sphere);
                    assert(world@ =~= seq![ground()] + before.0.push(sphere));
                },
                None => {},
            }
            b = b + 1;
        }
        a = a + 1;
    }
    let ghost small = world@;
    add_features(&mut world);
    proof {
        assert forall|i: int| 1 <= i < world@.len() - 3 implies (#[trigger] world@[i]).radius
            == ratio(1, 5) && keeps_clear(world@[i].center) by {
            assert(world@[i] == small[i]);
        }
    }
    world
}

} // verus!
