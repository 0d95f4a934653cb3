use raytracer::ratio::Ratio;
use raytracer::ray::Ray;
use raytracer::utils::clamp;
use raytracer::vec3::{cross, dot, near_zero, reflect, Vec3};

fn vec(x: i128, y: i128, z: i128, den: i128) -> Vec3 {
    Vec3::over_denominator(x, y, z, den)
}

fn same_point(a: Vec3, b: Vec3) -> bool {
    a.x.num * b.x.den == b.x.num * a.x.den
        && a.y.num * b.y.den == b.y.num * a.y.den
        && a.z.num * b.z.den == b.z.num * a.z.den
}

#[test]
fn over_denominator_shares_the_denominator() {
    let v = vec(1, -2, 3, 7);
    assert_eq!(v.x, Ratio { num: 1, den: 7 });
    assert_eq!(v.y, Ratio { num: -2, den: 7 });
    assert_eq!(v.z, Ratio { num: 3, den: 7 });
}

#[test]
fn add_brings_both_to_the_common_denominator() {
    assert_eq!(vec(1, 2, 3, 2).add(vec(1, 1, 1, 3)), vec(5, 8, 11, 6));
}

#[test]
fn add_assign_replaces_the_left_side() {
    let mut v = vec(1, 2, 3, 2);
    v.add_assign(vec(1, 1, 1, 3));
    assert_eq!(v, vec(5, 8, 11, 6));
}

#[test]
fn adding_to_black_gives_the_colour_itself() {
    let mut sum = vec(0, 0, 0, 1);
    sum.add_assign(vec(10, 14, 20, 20));
    assert_eq!(sum, vec(10, 14, 20, 20));
}

#[test]
fn sub_brings_both_to_the_common_denominator() {
    assert_eq!(vec(1, 2, 3, 2).sub(vec(1, 1, 1, 3)), vec(1, 4, 7, 6));
}

#[test]
fn neg_turns_every_component() {
    assert_eq!(vec(1, -2, 0, 5).neg(), vec(-1, 2, 0, 5));
}

#[test]
fn mul_multiplies_component_by_component() {
    assert_eq!(vec(1, 2, 3, 2).mul(vec(1, 1, 1, 3)), vec(1, 2, 3, 6));
    assert_eq!(vec(2, 3, 4, 1).mul(vec(5, 6, 7, 1)), vec(10, 18, 28, 1));
}

#[test]
fn scale_multiplies_by_a_fraction() {
    assert_eq!(vec(1, 2, 3, 2).scale(Ratio { num: 3, den: 4 }), vec(3, 6, 9, 8));
    assert_eq!(vec(1, 2, 3, 2).scale(Ratio { num: 0, den: 4 }), vec(0, 0, 0, 8));
}

#[test]
fn div_divides_by_a_fraction() {
    assert_eq!(vec(1, 2, 3, 2).div(Ratio { num: 3, den: 4 }), vec(4, 8, 12, 6));
}

#[test]
fn div_keeps_the_denominator_positive() {
    assert_eq!(vec(1, 2, 3, 2).div(Ratio { num: -3, den: 4 }), vec(-4, -8, -12, 6));
}

#[test]
fn dot_sums_the_products() {
    assert_eq!(dot(vec(1, 2, 3, 2), vec(4, 5, 6, 3)), Ratio { num: 32, den: 6 });
    assert_eq!(dot(vec(1, 0, 0, 1), vec(0, 1, 0, 1)), Ratio { num: 0, den: 1 });
}

#[test]
fn cross_of_two_axes_is_the_third() {
    assert_eq!(cross(vec(1, 0, 0, 1), vec(0, 1, 0, 1)), vec(0, 0, 1, 1));
    assert_eq!(cross(vec(0, 1, 0, 1), vec(1, 0, 0, 1)), vec(0, 0, -1, 1));
    assert_eq!(cross(vec(1, 2, 3, 1), vec(4, 5, 6, 1)), vec(-3, 6, -3, 1));
}

#[test]
fn length_squared_sums_the_squares() {
    assert_eq!(vec(1, 2, 3, 2).length_squared(), Ratio { num: 14, den: 4 });
    assert_eq!(vec(3, 4, 0, 5).length_squared(), Ratio { num: 25, den: 25 });
}

#[test]
fn near_zero_asks_for_every_component_below_the_threshold() {
    assert!(near_zero(vec(0, 0, 0, 1)));
    assert!(near_zero(vec(1, -1, 1, 100_000_001)));
    assert!(!near_zero(vec(1, 1, 1, 100_000_000)));
    assert!(!near_zero(vec(0, 0, 1, 100_000_000)));
    assert!(!near_zero(vec(0, -1, 0, 1)));
}

#[test]
fn reflect_mirrors_at_the_surface() {
    assert_eq!(reflect(vec(1, -1, 0, 1), vec(0, 1, 0, 1)), vec(1, 1, 0, 1));
    assert_eq!(reflect(vec(1, -1, 0, 1), vec(3, 4, 0, 5)), vec(31, -17, 0, 25));
}

#[test]
fn reflect_twice_gives_the_vector_back() {
    let v = vec(1, -1, 0, 1);
    let n = vec(3, 4, 0, 5);
    let twice = reflect(reflect(v, n), n);
    assert_eq!(twice, vec(625, -625, 0, 625));
    assert!(same_point(twice, v));

    let w = vec(5, -7, 11, 3);
    let m = vec(2, 3, 6, 7);
    assert!(same_point(reflect(reflect(w, m), m), w));
}

#[test]
fn reflect_head_on_turns_the_ray_back() {
    let n = vec(2, 3, 6, 7);
    assert!(same_point(reflect(n.neg(), n), n));
}

#[test]
fn scaling_a_unit_vector_scales_its_length() {
    let u = vec(2, 3, 6, 7);
    let scaled = u.scale(Ratio { num: -5, den: 3 });
    let l = scaled.length_squared();
    // |k u|^2 = k^2 = 25 / 9
    assert_eq!(l.num * 9, 25 * l.den);
}

#[test]
fn ray_at_walks_along_the_direction() {
    let r = Ray { origin: vec(-2, 0, 0, 1), direction: vec(1, 0, 0, 1) };
    assert_eq!(r.at(Ratio { num: 1, den: 1 }), vec(-1, 0, 0, 1));
    assert_eq!(r.at(Ratio { num: 0, den: 1 }), vec(-2, 0, 0, 1));
}

#[test]
fn ray_at_works_over_mixed_denominators() {
    let r = Ray { origin: vec(1, 2, 3, 2), direction: vec(1, 0, -1, 3) };
    let p = r.at(Ratio { num: 3, den: 2 });
    assert_eq!(p, vec(12, 12, 12, 12));
}

#[test]
fn clamp_brings_a_value_into_the_interval() {
    let zero = Ratio { num: 0, den: 1 };
    let top = Ratio { num: 999, den: 1000 };
    assert_eq!(clamp(Ratio { num: 3, den: 2 }, zero, top), top);
    assert_eq!(clamp(Ratio { num: -1, den: 2 }, zero, top), zero);
    assert_eq!(clamp(Ratio { num: 1, den: 2 }, zero, top), Ratio { num: 1, den: 2 });
    assert_eq!(clamp(top, zero, top), top);
    assert_eq!(clamp(zero, zero, top), zero);
}
