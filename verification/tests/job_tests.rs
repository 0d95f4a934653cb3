use raytracer::job::{create_jobs, image_height, scan_order, Job, Sample};
use raytracer::ratio::Ratio;
use raytracer::rng::RandomNumberGenerator;

fn job(row: usize, col: usize, sx: i32, sy: i32) -> Job {
    Job {
        rng: RandomNumberGenerator::create(),
        row,
        col,
        image_width: 20,
        image_height: 16,
        samples_per_pixel_x: sx,
        samples_per_pixel_y: sy,
        max_depth: 50,
    }
}

#[test]
fn sample_u_centres_the_grid_on_the_pixel() {
    let j = job(3, 7, 4, 2);
    // (7 + 0/4 - 1/2) / 19 = 52 / 152
    assert_eq!(j.sample_u(0), Ratio { num: 52, den: 152 });
    // (7 + 3/4 - 1/2) / 19 = 58 / 152
    assert_eq!(j.sample_u(3), Ratio { num: 58, den: 152 });
}

#[test]
fn sample_v_uses_the_row_and_the_height() {
    let j = job(3, 7, 4, 2);
    // (3 + 0/2 - 1/2) / 15 = 10 / 60
    assert_eq!(j.sample_v(0), Ratio { num: 10, den: 60 });
    // (3 + 1/2 - 1/2) / 15 = 12 / 60
    assert_eq!(j.sample_v(1), Ratio { num: 12, den: 60 });
}

#[test]
fn a_single_sample_sits_half_a_pixel_low() {
    let j = job(0, 0, 1, 1);
    assert_eq!(j.sample_u(0), Ratio { num: -1, den: 38 });
    assert_eq!(j.sample_v(0), Ratio { num: -1, den: 30 });
    assert_eq!(j.samples().len(), 1);
}

#[test]
fn samples_walk_the_grid_row_by_row() {
    let j = job(3, 7, 4, 2);
    let list = j.samples();
    assert_eq!(list.len(), 8);
    for (k, s) in list.iter().enumerate() {
        let x = (k % 4) as i32;
        let y = (k / 4) as i32;
        assert_eq!(*s, Sample { u: j.sample_u(x), v: j.sample_v(y) });
    }
    assert_eq!(list[5].u, Ratio { num: 54, den: 152 });
    assert_eq!(list[5].v, Ratio { num: 12, den: 60 });
}

#[test]
fn samples_stay_within_half_a_pixel() {
    let j = job(15, 19, 3, 5);
    for s in j.samples() {
        // (19 - 1/2) / 19 <= u < (19 + 1/2) / 19, over the denominator 2 * 3 * 19
        assert!(37 * 3 <= s.u.num && s.u.num < 39 * 3);
        assert_eq!(s.u.den, 2 * 3 * 19);
        assert!(29 * 5 <= s.v.num && s.v.num < 31 * 5);
        assert_eq!(s.v.den, 2 * 5 * 15);
    }
}

#[test]
fn create_jobs_makes_one_job_per_pixel_row_by_row() {
    let rng = RandomNumberGenerator::create();
    let jobs = create_jobs(&rng, 20, 16, 4, 2, 50);
    assert_eq!(jobs.len(), 320);
    for (k, j) in jobs.iter().enumerate() {
        assert_eq!(*j, job(k / 20, k % 20, 4, 2));
    }
    assert_eq!(jobs[0].row, 0);
    assert_eq!(jobs[19].col, 19);
    assert_eq!(jobs[20].row, 1);
    assert_eq!(jobs[319].row, 15);
}

#[test]
fn create_jobs_gives_every_job_the_same_generator() {
    let mut rng = RandomNumberGenerator::create();
    rng.random_double();
    let jobs = create_jobs(&rng, 2, 2, 1, 1, 1);
    assert_eq!(jobs.len(), 4);
    assert!(jobs.iter().all(|j| j.rng == rng));
    assert_eq!(jobs[3].max_depth, 1);
}

#[test]
fn scan_order_starts_with_the_top_row() {
    let order = scan_order(3, 2);
    assert_eq!(order, vec![3, 4, 5, 0, 1, 2]);
}

#[test]
fn scan_order_visits_every_job_once() {
    let order = scan_order(20, 16);
    assert_eq!(order.len(), 320);
    assert_eq!(order[0], 300);
    assert_eq!(order[19], 319);
    assert_eq!(order[20], 280);
    assert_eq!(order[319], 19);
    let mut seen = order.clone();
    seen.sort();
    assert_eq!(seen, (0..320).collect::<Vec<usize>>());
}

#[test]
fn image_height_divides_the_width_by_the_aspect_ratio() {
    assert_eq!(image_height(1920, Ratio { num: 16, den: 10 }), 1200);
    assert_eq!(image_height(20, Ratio { num: 5, den: 4 }), 16);
    assert_eq!(image_height(400, Ratio { num: 16, den: 9 }), 225);
    assert_eq!(image_height(0, Ratio { num: 16, den: 9 }), 0);
}

#[test]
fn image_height_rounds_down() {
    assert_eq!(image_height(100, Ratio { num: 3, den: 1 }), 33);
    assert_eq!(image_height(2, Ratio { num: 3, den: 1 }), 0);
}

#[test]
fn image_height_stops_at_the_largest_value() {
    assert_eq!(image_height(i32::MAX, Ratio { num: 1, den: 2 }), i32::MAX);
}
