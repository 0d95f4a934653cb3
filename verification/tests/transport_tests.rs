use raytracer::material::{Dielectric, Lambertian, Material, Metal};
use raytracer::ratio::Ratio;
use raytracer::transport::{Outcome, Path};
use raytracer::vec3::Vec3;

#[test]
fn a_path_without_budget_is_black() {
    assert_eq!(Path::start(0), Path::Black);
    assert_eq!(Path::start(-3), Path::Black);
}

#[test]
fn a_path_with_budget_is_traced() {
    assert_eq!(Path::start(50), Path::Tracing { depth: 50 });
}

#[test]
fn a_miss_ends_in_the_sky() {
    assert_eq!(Path::start(50).advance(Outcome::Miss), Path::Sky);
}

#[test]
fn a_single_ray_that_misses_ends_in_the_sky() {
    assert_eq!(Path::start(1).advance(Outcome::Miss), Path::Sky);
}

#[test]
fn an_absorbed_ray_ends_in_the_surface_colour() {
    assert_eq!(Path::start(2).advance(Outcome::Absorbed), Path::Diffuse);
}

#[test]
fn a_scattered_ray_costs_one_unit_of_budget() {
    assert_eq!(Path::start(3).advance(Outcome::Scattered), Path::Tracing { depth: 2 });
}

#[test]
fn the_last_scattered_ray_ends_in_black() {
    assert_eq!(Path::start(1).advance(Outcome::Scattered), Path::Black);
}

#[test]
fn a_path_ends_within_its_budget() {
    let mut path = Path::start(50);
    let mut rays = 0;
    while let Path::Tracing { .. } = path {
        path = path.advance(Outcome::Scattered);
        rays += 1;
    }
    assert_eq!(rays, 50);
    assert_eq!(path, Path::Black);
}

#[test]
fn a_final_path_stays_as_it_is() {
    assert_eq!(Path::Sky.advance(Outcome::Scattered), Path::Sky);
    assert_eq!(Path::Black.advance(Outcome::Miss), Path::Black);
    assert_eq!(Path::Diffuse.advance(Outcome::Absorbed), Path::Diffuse);
}

fn color(x: i128, y: i128, z: i128, den: i128) -> Vec3 {
    Vec3 { x: Ratio { num: x, den }, y: Ratio { num: y, den }, z: Ratio { num: z, den } }
}

#[test]
fn diffuse_is_the_albedo_of_opaque_surfaces() {
    let albedo = color(4, 2, 1, 10);
    assert_eq!(Lambertian { albedo }.diffuse(), albedo);
    assert_eq!(Metal { albedo, fuzz: Ratio { num: 1, den: 4 } }.diffuse(), albedo);
    assert_eq!(Material::Lambertian(Lambertian { albedo }).diffuse(), albedo);
    assert_eq!(
        Material::Metal(Metal { albedo, fuzz: Ratio { num: 0, den: 1 } }).diffuse(),
        albedo
    );
}

#[test]
fn diffuse_is_white_for_glass() {
    let glass = Dielectric { ir: Ratio { num: 3, den: 2 } };
    assert_eq!(glass.diffuse(), color(1, 1, 1, 1));
    assert_eq!(Material::Dielectric(glass).diffuse(), color(1, 1, 1, 1));
}

#[test]
fn refraction_ratio_inverts_the_index_on_the_way_in() {
    let glass = Dielectric { ir: Ratio { num: 3, den: 2 } };
    assert_eq!(glass.refraction_ratio(true), Ratio { num: 2, den: 3 });
    assert_eq!(glass.refraction_ratio(false), Ratio { num: 3, den: 2 });
}

#[test]
fn ratio_constructors_keep_their_arguments() {
    assert_eq!(Ratio::new(7, 10), Ratio { num: 7, den: 10 });
    assert_eq!(Ratio::from_integer(-1000), Ratio { num: -1000, den: 1 });
    assert_eq!(Ratio::from_integer(i64::MIN), Ratio { num: i64::MIN as i128, den: 1 });
    let v = Vec3::new(Ratio::new(1, 2), Ratio::new(2, 3), Ratio::new(3, 4));
    assert_eq!(
        v,
        Vec3 {
            x: Ratio { num: 1, den: 2 },
            y: Ratio { num: 2, den: 3 },
            z: Ratio { num: 3, den: 4 },
        }
    );
}
