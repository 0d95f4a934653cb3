use raytracer::hit_record::HitRecord;
use raytracer::material::{Dielectric, Lambertian, Material, Metal, Scattered};
use raytracer::pixel::{channel, channels, sky, Rgb};
use raytracer::ratio::Ratio;
use raytracer::ray::Ray;
use raytracer::sphere::select_root;
use raytracer::vec3::Vec3;

fn vec(x: i128, y: i128, z: i128, den: i128) -> Vec3 {
    Vec3::over_denominator(x, y, z, den)
}

fn frac(num: i128, den: i128) -> Ratio {
    Ratio { num, den }
}

fn grey() -> Material {
    Material::Lambertian(Lambertian { albedo: vec(1, 1, 1, 2) })
}

fn record(p: Vec3, normal: Vec3) -> HitRecord {
    let mut rec = HitRecord::new(grey());
    rec.p = p;
    rec.normal = normal;
    rec
}

#[test]
fn a_new_record_is_empty() {
    let rec = HitRecord::new(grey());
    assert_eq!(rec.p, vec(0, 0, 0, 1));
    assert_eq!(rec.normal, vec(0, 0, 0, 1));
    assert_eq!(rec.t, frac(0, 1));
    assert!(!rec.front_face);
    assert_eq!(rec.material, grey());
}

#[test]
fn set_face_normal_keeps_a_normal_that_faces_the_ray() {
    let r = Ray { origin: vec(-2, 0, 0, 1), direction: vec(1, 0, 0, 1) };
    let mut rec = record(vec(-1, 0, 0, 1), vec(0, 0, 0, 1));
    rec.t = frac(1, 1);
    rec.set_face_normal(r, vec(-1, 0, 0, 1));
    assert!(rec.front_face);
    assert_eq!(rec.normal, vec(-1, 0, 0, 1));
    assert_eq!(rec.p, vec(-1, 0, 0, 1));
    assert_eq!(rec.t, frac(1, 1));
}

#[test]
fn set_face_normal_turns_a_normal_that_follows_the_ray() {
    let r = Ray { origin: vec(0, 0, 0, 1), direction: vec(1, 0, 0, 1) };
    let mut rec = record(vec(1, 0, 0, 1), vec(0, 0, 0, 1));
    rec.set_face_normal(r, vec(1, 0, 0, 1));
    assert!(!rec.front_face);
    assert_eq!(rec.normal, vec(-1, 0, 0, 1));
}

#[test]
fn set_face_normal_counts_a_grazing_ray_as_back_face() {
    let r = Ray { origin: vec(0, 0, 0, 1), direction: vec(0, 1, 0, 1) };
    let mut rec = record(vec(1, 0, 0, 1), vec(0, 0, 0, 1));
    rec.set_face_normal(r, vec(1, 0, 0, 1));
    assert!(!rec.front_face);
    assert_eq!(rec.normal, vec(-1, 0, 0, 1));
}

#[test]
fn the_sky_is_blue_straight_up() {
    assert_eq!(sky(vec(0, 1, 0, 1)), vec(10, 14, 20, 20));
}

#[test]
fn the_sky_is_white_straight_down() {
    assert_eq!(sky(vec(0, -1, 0, 1)), vec(20, 20, 20, 20));
}

#[test]
fn the_sky_blends_in_between() {
    // t = 1/2: (3/4, 17/20, 1)
    assert_eq!(sky(vec(1, 0, 0, 1)), vec(15, 17, 20, 20));
    // y = 3/5, t = 4/5: (3/5, 19/25, 1)
    assert_eq!(sky(vec(0, 3, 4, 5)), vec(60, 76, 100, 100));
}

#[test]
fn channel_takes_the_root_and_scales_to_eight_bits() {
    // sqrt(1/4) = 1/2 -> 128
    assert_eq!(channel(frac(1, 4), 1), 128);
    // sqrt(1/2) = 0.7071.. -> 181
    assert_eq!(channel(frac(1, 2), 1), 181);
    // sqrt(7/10) = 0.8366.. -> 214
    assert_eq!(channel(frac(7, 10), 1), 214);
}

#[test]
fn channel_averages_over_the_samples() {
    assert_eq!(channel(frac(64, 1), 256), 128);
    assert_eq!(channel(frac(1, 4), 1), channel(frac(4, 4), 4));
}

#[test]
fn channel_stops_at_the_ends_of_the_range() {
    assert_eq!(channel(frac(1, 1), 1), 255);
    assert_eq!(channel(frac(1000, 1), 1), 255);
    assert_eq!(channel(frac(0, 1), 1), 0);
    assert_eq!(channel(frac(-1, 1), 1), 0);
    // just below and at the square of 1/256
    assert_eq!(channel(frac(1, 65537), 1), 0);
    assert_eq!(channel(frac(1, 65536), 1), 1);
}

#[test]
fn channels_converts_the_three_components() {
    assert_eq!(channels(vec(10, 14, 20, 20), 1), Rgb { r: 181, g: 214, b: 255 });
    assert_eq!(channels(vec(20, 20, 20, 20), 1), Rgb { r: 255, g: 255, b: 255 });
}

#[test]
fn lambertian_scatters_along_normal_plus_unit_vector() {
    let m = Lambertian { albedo: vec(4, 2, 1, 10) };
    let rec = record(vec(1, 2, 3, 1), vec(0, 1, 0, 1));
    let out = m.scatter(&rec, vec(1, 0, 0, 1));
    assert_eq!(
        out,
        Some(Scattered {
            ray: Ray { origin: vec(1, 2, 3, 1), direction: vec(1, 1, 0, 1) },
            attenuation: vec(4, 2, 1, 10),
        })
    );
}

#[test]
fn lambertian_falls_back_to_the_normal() {
    let m = Lambertian { albedo: vec(4, 2, 1, 10) };
    let rec = record(vec(1, 2, 3, 1), vec(0, 1, 0, 1));
    let out = m.scatter(&rec, vec(0, -1, 0, 1)).expect("a diffuse surface never absorbs");
    assert_eq!(out.ray.direction, vec(0, 1, 0, 1));
    assert_eq!(out.ray.origin, vec(1, 2, 3, 1));
    assert_eq!(out.attenuation, vec(4, 2, 1, 10));
}

#[test]
fn polished_metal_mirrors_a_head_on_ray() {
    let m = Metal { albedo: vec(7, 6, 5, 10), fuzz: frac(0, 1) };
    let rec = record(vec(-1, 0, 0, 1), vec(-1, 0, 0, 1));
    let out = m
        .scatter(&rec, vec(1, 0, 0, 1), vec(3, 4, 0, 5))
        .expect("the mirrored ray leaves the surface");
    // colinear with the mirror image (-1, 0, 0)
    assert_eq!(out.ray.direction, vec(-5, 0, 0, 5));
    assert_eq!(out.ray.origin, vec(-1, 0, 0, 1));
    assert_eq!(out.attenuation, vec(7, 6, 5, 10));
}

#[test]
fn metal_adds_the_roughness_to_the_mirror_image() {
    let m = Metal { albedo: vec(1, 1, 1, 1), fuzz: frac(1, 2) };
    let rec = record(vec(0, 0, 0, 1), vec(0, 1, 0, 1));
    // mirror image of (3, -4, 0) / 5 is (3, 4, 0) / 5; the offset is (1, 0, 0) / 2
    let out = m.scatter(&rec, vec(3, -4, 0, 5), vec(1, 0, 0, 1)).expect("scattered");
    assert_eq!(out.ray.direction, vec(11, 8, 0, 10));
}

#[test]
fn metal_absorbs_a_ray_that_would_enter_the_surface() {
    let m = Metal { albedo: vec(1, 1, 1, 1), fuzz: frac(1, 1) };
    let rec = record(vec(0, 0, 0, 1), vec(0, 1, 0, 1));
    assert_eq!(m.scatter(&rec, vec(0, -1, 0, 1), vec(0, -1, 0, 1)), None);
    assert_eq!(m.scatter(&rec, vec(3, -4, 0, 5), vec(0, -9, 0, 10)), None);
}

#[test]
fn glass_reflects_totally_at_a_flat_angle_on_the_way_out() {
    let glass = Dielectric { ir: frac(3, 2) };
    assert!(glass.cannot_refract(false, frac(1, 2)));
    assert!(glass.cannot_refract(false, frac(0, 1)));
}

#[test]
fn glass_refracts_near_the_perpendicular() {
    let glass = Dielectric { ir: frac(3, 2) };
    assert!(!glass.cannot_refract(false, frac(1, 1)));
    assert!(!glass.cannot_refract(false, frac(3, 4)));
    assert!(!glass.cannot_refract(false, frac(999, 1000)));
    assert!(!glass.cannot_refract(true, frac(1, 1)));
}

#[test]
fn glass_always_refracts_on_the_way_in() {
    let glass = Dielectric { ir: frac(3, 2) };
    assert!(!glass.cannot_refract(true, frac(0, 1)));
    assert!(!glass.cannot_refract(true, frac(1, 2)));
}

#[test]
fn select_root_prefers_the_near_root() {
    let eps = frac(1, 1000);
    assert_eq!(select_root(frac(1, 1), frac(3, 1), eps, None), Some(frac(1, 1)));
}

#[test]
fn select_root_takes_the_far_root_from_inside() {
    let eps = frac(1, 1000);
    assert_eq!(select_root(frac(-1, 1), frac(2, 1), eps, None), Some(frac(2, 1)));
    assert_eq!(select_root(frac(0, 1), frac(2, 1), eps, None), Some(frac(2, 1)));
}

#[test]
fn select_root_misses_a_sphere_behind_or_beyond() {
    let eps = frac(1, 1000);
    assert_eq!(select_root(frac(-3, 1), frac(-1, 1), eps, None), None);
    assert_eq!(select_root(frac(1, 1), frac(3, 1), eps, Some(frac(1, 2))), None);
    assert_eq!(select_root(frac(-1, 1), frac(3, 1), eps, Some(frac(2, 1))), None);
}

#[test]
fn select_root_counts_the_ends_of_the_range() {
    let eps = frac(1, 1000);
    assert_eq!(select_root(eps, frac(3, 1), eps, None), Some(eps));
    assert_eq!(select_root(frac(1, 1), frac(3, 1), eps, Some(frac(1, 1))), Some(frac(1, 1)));
    assert_eq!(select_root(frac(0, 1), frac(3, 1), eps, Some(frac(3, 1))), Some(frac(3, 1)));
}

#[test]
fn reflectance_is_r0_at_normal_incidence() {
    // r0 = ((1 - 3/2) / (1 + 3/2))^2 = 1/25
    assert_eq!(raytracer::material::reflectance(frac(1, 1), frac(3, 2)), frac(1, 25));
    assert_eq!(raytracer::material::reflectance(frac(1, 1), frac(2, 3)), frac(1, 25));
}

#[test]
fn reflectance_is_one_at_grazing_incidence() {
    assert_eq!(raytracer::material::reflectance(frac(0, 1), frac(3, 2)), frac(25, 25));
}

#[test]
fn reflectance_follows_schlick_in_between() {
    // 1/25 + 24/25 * (1/2)^5 = 56/800 = 0.07
    assert_eq!(raytracer::material::reflectance(frac(1, 2), frac(3, 2)), frac(56, 800));
    // 1/25 + 24/25 * (1/4)^5
    let r = raytracer::material::reflectance(frac(3, 4), frac(3, 2));
    assert_eq!(r, frac(1024 + 24, 25 * 1024));
}
