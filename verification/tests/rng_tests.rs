use raytracer::ratio::Ratio;
use raytracer::rng::RandomNumberGenerator;
use raytracer::vec3::Vec3;

const SCALE: i128 = 1_000_000_000_000;

fn unit(num: i128) -> Ratio {
    Ratio { num, den: SCALE }
}

#[test]
fn create_uses_the_fixed_seed() {
    let rng = RandomNumberGenerator::create();
    assert_eq!(rng.state, 675248);
    assert_eq!(rng.div, 1000);
    assert_eq!(rng.modulo, 1000000);
    assert!(rng.is_wf());
}

#[test]
fn is_wf_rejects_parameters_that_overflow() {
    let ok = RandomNumberGenerator { state: 0xFFFF_FFFF, div: 1, modulo: 94_906_265 };
    assert!(ok.is_wf());
    assert!(!RandomNumberGenerator { state: 0x1_0000_0000, div: 1, modulo: 10 }.is_wf());
    assert!(!RandomNumberGenerator { state: 1, div: 0, modulo: 10 }.is_wf());
    assert!(!RandomNumberGenerator { state: 1, div: 1, modulo: 0 }.is_wf());
    assert!(!RandomNumberGenerator { state: 1, div: 1, modulo: 94_906_266 }.is_wf());
    assert!(!RandomNumberGenerator { state: 1, div: 1, modulo: u64::MAX }.is_wf());
}

#[test]
fn next_follows_the_squaring_recurrence() {
    let mut rng = RandomNumberGenerator::create();
    assert_eq!(rng.next(), 959861);
    assert_eq!(rng.next(), 333139);
    assert_eq!(rng.next(), 981593);
    assert_eq!(rng.state, 981593);
    assert_eq!(rng.div, 1000);
    assert_eq!(rng.modulo, 1000000);
}

#[test]
fn next_squares_the_largest_state() {
    let mut rng = RandomNumberGenerator { state: 0xFFFF_FFFF, div: 1, modulo: 1000 };
    // 4294967295^2 = 18446744065119617025
    assert_eq!(rng.next(), 25);
}

#[test]
fn random_double_combines_two_steps() {
    let mut rng = RandomNumberGenerator::create();
    let d = rng.random_double();
    assert_eq!(d, unit(959861333139));
    assert_eq!(rng.state, 333139);
    let e = rng.random_double();
    assert_eq!(e, unit(981593524817));
}

#[test]
fn random_double_stays_in_the_unit_interval() {
    let mut rng = RandomNumberGenerator::create();
    for _ in 0..500 {
        let d = rng.random_double();
        assert_eq!(d.den, SCALE);
        assert!(0 <= d.num && d.num < d.den);
    }
}

#[test]
fn the_fixed_seed_settles_on_a_fixed_point() {
    let mut rng = RandomNumberGenerator::create();
    for _ in 0..210 {
        rng.next();
    }
    assert_eq!(rng.state, 625000);
    assert_eq!(rng.next(), 625000);
    assert_eq!(rng.random_double(), unit(625000625000));
}

#[test]
fn equal_generators_give_equal_sequences() {
    let mut a = RandomNumberGenerator::create();
    let mut b = a.clone();
    for _ in 0..50 {
        assert_eq!(a.random_double(), b.random_double());
    }
    assert_eq!(a, b);
}

#[test]
fn random_range_interpolates_over_the_common_denominator() {
    let mut rng = RandomNumberGenerator::create();
    let r = rng.random_range(Ratio { num: 1, den: 3 }, Ratio { num: 5, den: 2 });
    // 1/3 + (5/2 - 1/3) * 0.959861333139
    assert_eq!(r, Ratio { num: 14478197330807, den: 6 * SCALE });
    assert_eq!(rng.state, 333139);
    // 1/3 <= r < 5/2
    assert!(r.num * 3 >= r.den);
    assert!(r.num * 2 < 5 * r.den);
}

#[test]
fn random_range_of_a_point_is_that_point() {
    let mut rng = RandomNumberGenerator::create();
    let r = rng.random_range(Ratio { num: 7, den: 4 }, Ratio { num: 7, den: 4 });
    assert_eq!(r.num * 4, 7 * r.den);
}

#[test]
fn random_vec3_draws_x_then_y_then_z() {
    let mut rng = RandomNumberGenerator::create();
    let v = rng.random_vec3();
    assert_eq!(
        v,
        Vec3 { x: unit(959861333139), y: unit(981593524817), z: unit(432883387691) }
    );
    assert_eq!(rng.state, 387691);
}

#[test]
fn random_vec3_range_scales_each_component() {
    let mut rng = RandomNumberGenerator::create();
    let v = rng.random_vec3_range(Ratio { num: 1, den: 2 }, Ratio { num: 1, den: 1 });
    let half = |num: i128| Ratio { num, den: 2 * SCALE };
    assert_eq!(
        v,
        Vec3 { x: half(1959861333139), y: half(1981593524817), z: half(1432883387691) }
    );
    assert_eq!(rng.state, 387691);
}

#[test]
fn random_in_unit_sphere_returns_the_first_point_inside() {
    let mut rng = RandomNumberGenerator::create();
    let p = rng.random_in_unit_sphere().expect("a point inside the sphere");
    // three candidates are rejected before this one
    assert_eq!(
        p,
        Vec3 { x: unit(-448071687742), y: unit(-247470850806), z: unit(-676575698460) }
    );
    assert_eq!(rng.state, 150770);
    assert!(p.x.num * p.x.num + p.y.num * p.y.num + p.z.num * p.z.num < SCALE * SCALE);
}

#[test]
fn random_in_unit_sphere_rejects_points_outside() {
    let mut rng = RandomNumberGenerator::create();
    // the first candidate, (0.9197.., 0.9631.., -0.1342..), lies outside
    let mut probe = RandomNumberGenerator::create();
    let first = probe.random_vec3_range(Ratio { num: -1, den: 1 }, Ratio { num: 1, den: 1 });
    assert_eq!(first.x, unit(919722666278));
    assert!(
        first.x.num * first.x.num + first.y.num * first.y.num + first.z.num * first.z.num
            >= SCALE * SCALE
    );
    let p = rng.random_in_unit_sphere().expect("a point inside the sphere");
    assert_ne!(p, first);
}

#[test]
fn random_in_unit_disk_returns_the_first_point_inside() {
    let mut rng = RandomNumberGenerator::create();
    let p = rng.random_in_unit_disk().expect("a point inside the disk");
    // one candidate is rejected before this one
    assert_eq!(
        p,
        Vec3 { x: unit(-134233224618), y: unit(-391376789632), z: Ratio { num: 0, den: 1 } }
    );
    assert_eq!(rng.state, 605184);
}

#[test]
fn samplers_give_up_on_a_generator_that_never_leaves_the_corner() {
    // state 0 stays 0: every draw is 0, every candidate the corner (-1, -1, -1)
    let mut rng = RandomNumberGenerator { state: 0, div: 1, modulo: 10 };
    assert_eq!(rng.random_in_unit_sphere(), None);
    assert_eq!(rng.state, 0);
    assert_eq!(rng.random_in_unit_disk(), None);
}

#[test]
fn samplers_accept_at_the_fixed_point() {
    let mut rng = RandomNumberGenerator { state: 625000, div: 1000, modulo: 1000000 };
    let q = unit(250001250000);
    assert_eq!(rng.random_in_unit_sphere(), Some(Vec3 { x: q, y: q, z: q }));
    assert_eq!(
        rng.random_in_unit_disk(),
        Some(Vec3 { x: q, y: q, z: Ratio { num: 0, den: 1 } })
    );
}
