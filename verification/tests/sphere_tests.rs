use raytracer::hit_record::HitRecord;
use raytracer::material::{Lambertian, Material};
use raytracer::ratio::Ratio;
use raytracer::ray::Ray;
use raytracer::sphere::{Roots, Sphere};
use raytracer::utils::integer_sqrt;
use raytracer::vec3::Vec3;

fn vec(x: i128, y: i128, z: i128, den: i128) -> Vec3 {
    Vec3::over_denominator(x, y, z, den)
}

fn frac(num: i128, den: i128) -> Ratio {
    Ratio { num, den }
}

fn grey() -> Material {
    Material::Lambertian(Lambertian { albedo: vec(1, 1, 1, 2) })
}

fn unit_sphere() -> Sphere {
    Sphere { center: vec(0, 0, 0, 1), radius: frac(1, 1), material: grey() }
}

fn along_x(x: i128, y: i128, den: i128) -> Ray {
    Ray { origin: vec(x, y, 0, den), direction: vec(1, 0, 0, 1) }
}

fn eps() -> Ratio {
    frac(1, 1000)
}

#[test]
fn integer_sqrt_rounds_down() {
    assert_eq!(integer_sqrt(0), 0);
    assert_eq!(integer_sqrt(1), 1);
    assert_eq!(integer_sqrt(2), 1);
    assert_eq!(integer_sqrt(3), 1);
    assert_eq!(integer_sqrt(4), 2);
    assert_eq!(integer_sqrt(15), 3);
    assert_eq!(integer_sqrt(16), 4);
    assert_eq!(integer_sqrt(1_000_000_000_000_000_000_000_000), 1_000_000_000_000);
    assert_eq!(integer_sqrt(999_999_999_999_999_999_999_999), 999_999_999_999);
    assert_eq!(integer_sqrt(u128::MAX), u64::MAX as u128);
}

#[test]
fn discriminant_of_a_ray_through_the_centre() {
    // a = 1, half_b = -2, c = 3
    assert_eq!(unit_sphere().discriminant(along_x(-2, 0, 1)), frac(1, 1));
}

#[test]
fn discriminant_is_negative_for_a_ray_that_passes_by() {
    // a = 1, half_b = -2, c = 7
    assert_eq!(unit_sphere().discriminant(along_x(-2, 2, 1)), frac(-3, 1));
}

#[test]
fn discriminant_is_zero_for_a_ray_that_grazes() {
    assert_eq!(unit_sphere().discriminant(along_x(-2, 1, 1)), frac(0, 1));
}

#[test]
fn discriminant_carries_the_denominators() {
    // radius 1/2: a = 1, half_b = -1, c = 3/4, discriminant 1/4
    let s = Sphere { center: vec(0, 0, 0, 1), radius: frac(1, 2), material: grey() };
    assert_eq!(s.discriminant(along_x(-1, 0, 1)), frac(1, 4));
    // origin (-2, 1/2, 0): half_b = -2, c = 13/4, discriminant 3/4
    assert_eq!(unit_sphere().discriminant(along_x(-4, 1, 2)), frac(3, 4));
}

#[test]
fn exact_root_finds_whole_roots_only() {
    assert_eq!(unit_sphere().exact_root(along_x(-2, 0, 1)), Some(1));
    assert_eq!(unit_sphere().exact_root(along_x(-2, 1, 1)), Some(0));
    assert_eq!(unit_sphere().exact_root(along_x(-2, 2, 1)), None);
    assert_eq!(unit_sphere().exact_root(along_x(-4, 1, 2)), None);
    // 3-4-5: origin (-2, 3/5, 0), discriminant 16/25
    assert_eq!(unit_sphere().exact_root(along_x(-10, 3, 5)), Some(4));
}

#[test]
fn roots_are_the_two_crossings() {
    assert_eq!(
        unit_sphere().roots(along_x(-2, 0, 1), 1),
        Roots { near: frac(1, 1), far: frac(3, 1) }
    );
    let s = Sphere { center: vec(0, 0, 0, 1), radius: frac(1, 2), material: grey() };
    assert_eq!(s.roots(along_x(-1, 0, 1), 1), Roots { near: frac(1, 2), far: frac(3, 2) });
}

#[test]
fn roots_of_a_longer_direction_are_shorter() {
    let r = Ray { origin: vec(-2, 0, 0, 1), direction: vec(2, 0, 0, 1) };
    // a = 4, half_b = -4, c = 3, discriminant 4
    assert_eq!(unit_sphere().discriminant(r), frac(4, 1));
    assert_eq!(unit_sphere().roots(r, 2), Roots { near: frac(2, 4), far: frac(6, 4) });
}

#[test]
fn hit_from_outside_strikes_the_front_face() {
    let r = along_x(-2, 0, 1);
    let rec = unit_sphere().hit(r, eps(), None, 1).expect("the ray hits the sphere");
    assert_eq!(
        rec,
        HitRecord {
            p: vec(-1, 0, 0, 1),
            normal: vec(-1, 0, 0, 1),
            material: grey(),
            t: frac(1, 1),
            front_face: true,
        }
    );
}

#[test]
fn hit_from_inside_strikes_the_back_face() {
    let r = along_x(0, 0, 1);
    let rec = unit_sphere().hit(r, eps(), None, 1).expect("the ray leaves the sphere");
    assert_eq!(rec.t, frac(1, 1));
    assert_eq!(rec.p, vec(1, 0, 0, 1));
    assert!(!rec.front_face);
    assert_eq!(rec.normal, vec(-1, 0, 0, 1));
}

#[test]
fn hit_misses_where_the_discriminant_is_negative() {
    assert_eq!(unit_sphere().hit(along_x(-2, 2, 1), eps(), None, 0), None);
}

#[test]
fn hit_misses_a_sphere_behind_the_ray() {
    assert_eq!(unit_sphere().hit(along_x(2, 0, 1), eps(), None, 1), None);
}

#[test]
fn hit_misses_a_sphere_beyond_the_range() {
    let r = along_x(-2, 0, 1);
    assert_eq!(unit_sphere().hit(r, eps(), Some(frac(1, 2)), 1), None);
    assert!(unit_sphere().hit(r, eps(), Some(frac(1, 1)), 1).is_some());
}

#[test]
fn hit_turns_to_the_far_root_when_the_near_one_is_too_close() {
    let r = along_x(-1, 0, 1);
    // the roots are 0 and 2
    let rec = unit_sphere().hit(r, eps(), None, 1).expect("the ray leaves the sphere");
    assert_eq!(rec.t, frac(2, 1));
    assert_eq!(rec.p, vec(1, 0, 0, 1));
    assert!(!rec.front_face);
}

#[test]
fn hit_keeps_the_denominators_of_a_small_sphere() {
    let s = Sphere { center: vec(0, 0, 0, 1), radius: frac(1, 2), material: grey() };
    let rec = s.hit(along_x(-1, 0, 1), eps(), None, 1).expect("the ray hits the sphere");
    assert_eq!(rec.t, frac(1, 2));
    assert_eq!(rec.p, vec(-1, 0, 0, 2));
    assert_eq!(rec.normal, vec(-2, 0, 0, 2));
    assert!(rec.front_face);
}

#[test]
fn hit_point_lies_on_the_sphere() {
    // 3-4-5: the ray from (-2, 3/5, 0) meets the unit sphere at x = -4/5
    let r = along_x(-10, 3, 5);
    let rec = unit_sphere().hit(r, eps(), None, 4).expect("the ray hits the sphere");
    let p = rec.p;
    assert_eq!(p.x.num * p.x.num + p.y.num * p.y.num + p.z.num * p.z.num, p.x.den * p.x.den);
    assert_eq!(p.x.num * 5, -4 * p.x.den);
    assert_eq!(p.y.num * 5, 3 * p.y.den);
    // t = 2 - 4/5
    assert_eq!(rec.t.num * 5, 6 * rec.t.den);
    // the normal has length one and faces the ray
    let n = rec.normal;
    assert_eq!(n.x.num * n.x.num + n.y.num * n.y.num + n.z.num * n.z.num, n.x.den * n.x.den);
    assert!(rec.front_face);
    assert!(n.x.num < 0);
}

#[test]
fn hit_at_fills_the_record() {
    let rec = unit_sphere().hit_at(along_x(-2, 0, 1), frac(3, 1));
    assert_eq!(rec.t, frac(3, 1));
    assert_eq!(rec.p, vec(1, 0, 0, 1));
    assert!(!rec.front_face);
    assert_eq!(rec.normal, vec(-1, 0, 0, 1));
    assert_eq!(rec.material, grey());
}

#[test]
fn a_grazing_ray_counts_as_back_face() {
    let rec = unit_sphere().hit(along_x(-2, 1, 1), eps(), None, 0).expect("the ray grazes");
    assert_eq!(rec.t, frac(2, 1));
    assert_eq!(rec.p, vec(0, 1, 0, 1));
    assert!(!rec.front_face);
    assert_eq!(rec.normal, vec(0, -1, 0, 1));
}

fn white() -> Material {
    Material::Lambertian(Lambertian { albedo: vec(1, 1, 1, 1) })
}

fn two_spheres() -> raytracer::hittable_list::HittableList {
    let mut world = raytracer::hittable_list::HittableList::new();
    world.add(Sphere { center: vec(4, 0, 0, 1), radius: frac(1, 1), material: white() });
    world.add(unit_sphere());
    world
}

#[test]
fn scene_hit_is_the_nearest_hit() {
    // the far sphere is hit at 5 and 7, the near one at 1 and 3
    let rec = two_spheres()
        .hit(along_x(-2, 0, 1), eps(), None, &vec![1, 1])
        .expect("the ray hits both spheres");
    assert_eq!(rec.t, frac(1, 1));
    assert_eq!(rec.p, vec(-1, 0, 0, 1));
    assert_eq!(rec.material, grey());
    assert!(rec.front_face);
}

#[test]
fn scene_hit_does_not_depend_on_the_order_of_distinct_hits() {
    let mut world = raytracer::hittable_list::HittableList::new();
    world.add(unit_sphere());
    world.add(Sphere { center: vec(4, 0, 0, 1), radius: frac(1, 1), material: white() });
    let rec = world
        .hit(along_x(-2, 0, 1), eps(), None, &vec![1, 1])
        .expect("the ray hits both spheres");
    assert_eq!(rec.t, frac(1, 1));
    assert_eq!(rec.material, grey());
}

#[test]
fn scene_hit_gives_a_tie_to_the_later_object() {
    let mut world = raytracer::hittable_list::HittableList::new();
    world.add(unit_sphere());
    world.add(Sphere { center: vec(0, 0, 0, 1), radius: frac(1, 1), material: white() });
    let rec = world
        .hit(along_x(-2, 0, 1), eps(), None, &vec![1, 1])
        .expect("the ray hits both spheres");
    assert_eq!(rec.t, frac(1, 1));
    assert_eq!(rec.material, white());
}

#[test]
fn scene_hit_misses_where_every_object_is_missed() {
    assert_eq!(two_spheres().hit(along_x(-2, 5, 1), eps(), None, &vec![0, 0]), None);
    assert_eq!(two_spheres().hit(along_x(-2, 0, 1), eps(), Some(frac(1, 2)), &vec![1, 1]), None);
    let empty = raytracer::hittable_list::HittableList::new();
    assert_eq!(empty.hit(along_x(-2, 0, 1), eps(), None, &vec![]), None);
}

#[test]
fn scene_hit_passes_by_the_near_sphere() {
    // from (2, 0, 0) the near sphere lies behind the ray
    let rec = two_spheres()
        .hit(along_x(2, 0, 1), eps(), None, &vec![1, 1])
        .expect("the ray hits the far sphere");
    assert_eq!(rec.t, frac(1, 1));
    assert_eq!(rec.p, vec(3, 0, 0, 1));
    assert_eq!(rec.material, white());
}

#[test]
fn a_ray_from_above_hits_the_glass_sphere_of_the_simple_scene() {
    let world = raytracer::scene::simple_scene();
    let r = Ray { origin: vec(0, 10, 0, 1), direction: vec(0, -1, 0, 1) };
    let roots: Vec<i128> = world
        .objects
        .iter()
        .map(|s| s.exact_root(r).unwrap_or(0))
        .collect();
    // the ground is hit at 10, the glass sphere at 8, the other two are missed
    assert_eq!(roots, vec![1000, 1, 0, 0]);
    let rec = world.hit(r, eps(), None, &roots).expect("the ray hits the glass sphere");
    assert_eq!(rec.t, frac(8, 1));
    assert_eq!(rec.p, vec(0, 2, 0, 1));
    assert_eq!(rec.normal, vec(0, 1, 0, 1));
    assert!(rec.front_face);
    assert_eq!(rec.material, world.objects[1].material);
}
