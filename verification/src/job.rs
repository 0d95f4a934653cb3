use vstd::prelude::*;
use crate::ratio::{lemma_product_bound, lemma_product_positive, Ratio};
use crate::rng::RandomNumberGenerator;

verus! {

/// The work for one pixel: its place in the image, the sampling grid inside
/// it, the bounce budget of each path, and a generator of its own.
#[derive(Clone, Copy, Debug, PartialEq, Eq, Structural)]
pub struct Job {
    pub rng: RandomNumberGenerator,
    pub row: usize,
    pub col: usize,
    pub image_width: i32,
    pub image_height: i32,
    pub samples_per_pixel_x: i32,
    pub samples_per_pixel_y: i32,
    pub max_depth: i32,
}

/// The normalised image coordinates of one sample, `u` along a row and `v`
/// along a column.
#[derive(Clone, Copy, Debug, PartialEq, Eq, Structural)]
pub struct Sample {
    pub u: Ratio,
    pub v: Ratio,
}

/// The coordinate of sub-sample `sample` out of `samples` in pixel `index` of
/// an axis with `extent` pixels:
/// `(index + sample / samples - 1/2) / (extent - 1)`, written over the
/// denominator `2 * samples * (extent - 1)`.
pub open spec fn jitter(index: int, sample: int, samples: int, extent: int) -> Ratio {
    Ratio {
        num: (2 * samples * index + 2 * sample - samples) as i128,
        den: (2 * samples * (extent - 1)) as i128,
    }
}

/// An image of at least 2 x 2 pixels with at least one sample per axis.
pub open spec fn plan_wf(
    image_width: i32,
    image_height: i32,
    samples_per_pixel_x: i32,
    samples_per_pixel_y: i32,
) -> bool {
    &&& image_width >= 2
    &&& image_height >= 2
    &&& samples_per_pixel_x >= 1
    &&& samples_per_pixel_y >= 1
}

impl Job {
    /// The pixel lies inside an image of at least 2 x 2 pixels, every axis has
    /// at least one sample, and the generator is well-formed.
    pub open spec fn wf(self) -> bool {
        &&& plan_wf(
            self.image_width,
            self.image_height,
            self.samples_per_pixel_x,
            self.samples_per_pixel_y,
        )
        &&& self.row < self.image_height
        &&& self.col < self.image_width
        &&& self.rng.wf()
    }

    /// The number of samples of the pixel.
    pub open spec fn sample_count(self) -> int {
        self.samples_per_pixel_x * self.samples_per_pixel_y
    }

    /// Sample `k` of the pixel. The samples are numbered row by row of the
    /// sampling grid: `k % samples_per_pixel_x` runs fastest.
    pub open spec fn sample_at(self, k: int) -> Sample {
        Sample {
            u: jitter(
                self.col as int,
                k % (self.samples_per_pixel_x as int),
                self.samples_per_pixel_x as int,
                self.image_width as int,
            ),
            v: jitter(
                self.row as int,
                k / (self.samples_per_pixel_x as int),
                self.samples_per_pixel_y as int,
                self.image_height as int,
            ),
        }
    }

    /// The horizontal coordinate of the sub-samples in column `sample_x` of
    /// the sampling grid.
    pub fn sample_u(&self, sample_x: i32) -> (u: Ratio)
        requires
            self.wf(),
        ensures
            u == jitter(
                self.col as int,
                sample_x as int,
                self.samples_per_pixel_x as int,
                self.image_width as int,
            ),
            u.wf(),
    {
        coordinate(self.col, sample_x, self.samples_per_pixel_x, self.image_width)
    }

    /// The vertical coordinate of the sub-samples in row `sample_y` of the
    /// sampling grid.
    pub fn sample_v(&self, sample_y: i32) -> (v: Ratio)
        requires
            self.wf(),
        ensures
            v == jitter(
                self.row as int,
                sample_y as int,
                self.samples_per_pixel_y as int,
                self.image_height as int,
            ),
            v.wf(),
    {
        coordinate(self.row, sample_y, self.samples_per_pixel_y, self.image_height)
    }

    /// All samples of the pixel, in the order in which they are traced: the
    /// rows of the sampling grid one after the other, each from left to right.
    pub fn samples(&self) -> (list: Vec<Sample>)
        requires
            self.wf(),
        ensures
            list@.len() == self.sample_count(),
            forall|k: int| 0 <= k < list@.len() ==> #[trigger] list@[k] == self.sample_at(k),
            forall|k: int| 0 <= k < list@.len() ==> (#[trigger] list@[k]).u.wf() && list@[k].v.wf(),
    {
        let mut list: Vec<Sample> = Vec::new();
        let mut sample_y: i32 = 0;
        while sample_y < self.samples_per_pixel_y
            invariant
                self.wf(),
                0 <= sample_y <= self.samples_per_pixel_y,
                list@.len() == sample_y * self.samples_per_pixel_x,
                forall|k: int| 0 <= k < list@.len() ==> #[trigger] list@[k] == self.sample_at(k),
                forall|k: int|
                    0 <= k < list@.len() ==> (#[trigger] list@[k]).u.wf() && list@[k].v.wf(),
            decreases self.samples_per_pixel_y - sample_y,
        {
            let v = self.sample_v(sample_y);
            let mut sample_x: i32 = 0;
            while sample_x < self.samples_per_pixel_x
                invariant
                    self.wf(),
                    0 <= sample_y < self.samples_per_pixel_y,
                    0 <= sample_x <= self.samples_per_pixel_x,
                    v.wf(),
                    v == jitter(
                        self.row as int,
                        sample_y as int,
                        self.samples_per_pixel_y as int,
                        self.image_height as int,
                    ),
                    list@.len() == sample_y * self.samples_per_pixel_x + sample_x,
                    forall|k: int|
                        0 <= k < list@.len() ==> #[trigger] list@[k] == self.sample_at(k),
                    forall|k: int|
                        0 <= k < list@.len() ==> (#[trigger] list@[k]).u.wf() && list@[k].v.wf(),
                decreases self.samples_per_pixel_x - sample_x,
            {
                let u = self.sample_u(sample_x);
                proof {
                    lemma_grid_index(
                        sample_y as int,
                        sample_x as int,
                        self.samples_per_pixel_x as int,
                    );
                }
                list.push(Sample { u, v });
                sample_x = sample_x + 1;
            }
            proof {
                assert((sample_y + 1) * self.samples_per_pixel_x == sample_y
                    * self.samples_per_pixel_x + self.samples_per_pixel_x) by (nonlinear_arith);
            }
            sample_y = sample_y + 1;
        }
        proof {
            assert(self.samples_per_pixel_y * self.samples_per_pixel_x == self.samples_per_pixel_x
                * self.samples_per_pixel_y) by (nonlinear_arith);
        }
        list
    }
}

/// The job of pixel `k`, counted row by row from row 0: `k % image_width`
/// runs fastest. Each job starts from a copy of `rng`.
pub open spec fn job_at(
    k: int,
    rng: RandomNumberGenerator,
    image_width: i32,
    image_height: i32,
    samples_per_pixel_x: i32,
    samples_per_pixel_y: i32,
    max_depth: i32,
) -> Job {
    Job {
        rng,
        row: (k / (image_width as int)) as usize,
        col: (k % (image_width as int)) as usize,
        image_width,
        image_height,
        samples_per_pixel_x,
        samples_per_pixel_y,
        max_depth,
    }
}

/// One job per pixel, row by row from row 0 and within a row from column 0.
/// Every job gets its own copy of `rng`, so a pixel's samples do not depend on
/// the order in which the jobs are run.
pub fn create_jobs(
    rng: &RandomNumberGenerator,
    image_width: i32,
    image_height: i32,
    samples_per_pixel_x: i32,
    samples_per_pixel_y: i32,
    max_depth: i32,
) -> (jobs: Vec<Job>)
    requires
        plan_wf(image_width, image_height, samples_per_pixel_x, samples_per_pixel_y),
        rng.wf(),
        image_width * image_height <= usize::MAX,
    ensures
        jobs@.len() == image_height * image_width,
        forall|k: int|
            0 <= k < jobs@.len() ==> #[trigger] jobs@[k] == job_at(
                k,
                *rng,
                image_width,
                image_height,
                samples_per_pixel_x,
                samples_per_pixel_y,
                max_depth,
            ),
        forall|k: int| 0 <= k < jobs@.len() ==> (#[trigger] jobs@[k]).wf(),
{
    let mut jobs: Vec<Job> = Vec::new();
    let mut row: i32 = 0;
    while row < image_height
        invariant
            plan_wf(image_width, image_height, samples_per_pixel_x, samples_per_pixel_y),
            rng.wf(),
            0 <= row <= image_height,
            jobs@.len() == row * image_width,
            forall|k: int|
                0 <= k < jobs@.len() ==> #[trigger] jobs@[k] == job_at(
                    k,
                    *rng,
                    image_width,
                    image_height,
                    samples_per_pixel_x,
                    samples_per_pixel_y,
                    max_depth,
                ),
            forall|k: int| 0 <= k < jobs@.len() ==> (#[trigger] jobs@[k]).wf(),
        decreases image_height - row,
    {
        let mut col: i32 = 0;
        while col < image_width
            invariant
                plan_wf(image_width, image_height, samples_per_pixel_x, samples_per_pixel_y),
                rng.wf(),
                0 <= row < image_height,
                0 <= col <= image_width,
                jobs@.len() == row * image_width + col,
                forall|k: int|
                    0 <= k < jobs@.len() ==> #[trigger] jobs@[k] == job_at(
                        k,
                        *rng,
                        image_width,
                        image_height,
                        samples_per_pixel_x,
                        samples_per_pixel_y,
                        max_depth,
                    ),
                forall|k: int| 0 <= k < jobs@.len() ==> (#[trigger] jobs@[k]).wf(),
            decreases image_width - col,
        {
            proof {
                lemma_grid_index(row as int, col as int, image_width as int);
            }
            jobs.push(
                Job {
                    rng: *rng,
                    row: row as usize,
                    col: col as usize,
                    image_width,
                    image_height,
                    samples_per_pixel_x,
                    samples_per_pixel_y,
                    max_depth,
                },
            );
            col = col + 1;
        }
        proof {
            assert((row + 1) * image_width == row * image_width + image_width)
                by (nonlinear_arith);
        }
        row = row + 1;
    }
    jobs
}

/// The job whose pixel is written at place `k` of the image file. The file
/// holds the rows from the top of the image down, while jobs count rows from
/// the bottom up: place `k` belongs to row `image_height - 1 - k / image_width`
/// and column `k % image_width`.
pub open spec fn scan_index(k: int, image_width: int, image_height: int) -> int {
    (image_height - 1 - k / image_width) * image_width + k % image_width
}

/// For each place of the image file, from the top row down and within a row
/// from left to right, the number of the job that rendered the pixel.
pub fn scan_order(image_width: i32, image_height: i32) -> (order: Vec<usize>)
    requires
        image_width >= 1,
        image_height >= 1,
        image_width * image_height <= usize::MAX,
    ensures
        order@.len() == image_height * image_width,
        forall|k: int|
            0 <= k < order@.len() ==> #[trigger] order@[k] == scan_index(
                k,
                image_width as int,
                image_height as int,
            ),
        forall|k: int| 0 <= k < order@.len() ==> #[trigger] order@[k] < order@.len(),
{
    let mut order: Vec<usize> = Vec::new();
    let width = image_width as usize;
    let mut done: i32 = 0;
    while done < image_height
        invariant
            image_width >= 1,
            image_height >= 1,
            image_width * image_height <= usize::MAX,
            width == image_width,
            0 <= done <= image_height,
            order@.len() == done * image_width,
            forall|k: int|
                0 <= k < order@.len() ==> #[trigger] order@[k] == scan_index(
                    k,
                    image_width as int,
                    image_height as int,
                ),
            forall|k: int|
                0 <= k < order@.len() ==> #[trigger] order@[k] < image_height * image_width,
        decreases image_height - done,
    {
        let row = (image_height - 1 - done) as usize;
        proof {
            assert(row * width + width <= image_height * image_width) by (nonlinear_arith)
                requires
                    0 <= row < image_height,
                    width == image_width,
                    width >= 1,
            ;
            assert(image_height * image_width == image_width * image_height)
                by (nonlinear_arith);
        }
        let base: usize = row * width;
        let mut col: usize = 0;
        while col < width
            invariant
                image_width >= 1,
                width == image_width,
                0 <= done < image_height,
                row == image_height - 1 - done,
                base == row * width,
                base + width <= image_height * image_width,
                image_width * image_height <= usize::MAX,
                image_height * image_width == image_width * image_height,
                0 <= col <= width,
                order@.len() == done * image_width + col,
                forall|k: int|
                    0 <= k < order@.len() ==> #[trigger] order@[k] == scan_index(
                        k,
                        image_width as int,
                        image_height as int,
                    ),
                forall|k: int|
                    0 <= k < order@.len() ==> #[trigger] order@[k] < image_height * image_width,
            decreases width - col,
        {
            proof {
                lemma_grid_index(done as int, col as int, image_width as int);
            }
            order.push(base + col);
            col = col + 1;
        }
        proof {
            assert((done + 1) * image_width == done * image_width + image_width)
                by (nonlinear_arith);
        }
        done = done + 1;
    }
    order
}

/// The scan order hands every job to exactly one place of the image file:
/// the job of place `k` is a job of the image, and the place of that job's
/// number is `k` again, so that no two places share a job.
pub proof fn lemma_scan_index_involution(k: int, image_width: int, image_height: int)
    requires
        image_width >= 1,
        image_height >= 1,
        0 <= k < image_height * image_width,
    ensures
        0 <= scan_index(k, image_width, image_height) < image_height * image_width,
        scan_index(scan_index(k, image_width, image_height), image_width, image_height) == k,
{
    let row = k / image_width;
    let col = k % image_width;
    vstd::arithmetic::div_mod::lemma_fundamental_div_mod(k, image_width);
    assert(0 <= col < image_width);
    assert(0 <= row < image_height) by (nonlinear_arith)
        requires
            k == image_width * row + col,
            0 <= col < image_width,
            0 <= k < image_height * image_width,
            image_width >= 1,
    ;
    let flipped = image_height - 1 - row;
    lemma_grid_index(flipped, col, image_width);
    assert(flipped * image_width + image_width <= image_height * image_width)
        by (nonlinear_arith)
        requires
            0 <= flipped < image_height,
            image_width >= 1,
    ;
    assert(row * image_width == image_width * row) by (nonlinear_arith);
}

/// The height of an image of the given width whose width-to-height ratio is
/// `aspect_ratio`: `image_width / aspect_ratio` rounded down, and no more than
/// `i32::MAX`.
pub open spec fn height_for(image_width: int, aspect_ratio: Ratio) -> int {
    let exact = image_width * aspect_ratio.den / (aspect_ratio.num as int);
    if exact <= i32::MAX {
        exact
    } else {
        i32::MAX as int
    }
}

/// Derives the image height from the width and the aspect ratio.
pub fn image_height(image_width: i32, aspect_ratio: Ratio) -> (height: i32)
    requires
        image_width >= 0,
        aspect_ratio.wf(),
        aspect_ratio.is_positive(),
        aspect_ratio.is_short(),
    ensures
        height == height_for(image_width as int, aspect_ratio),
        height >= 0,
{
    proof {
        lemma_product_bound(
            image_width as int,
            aspect_ratio.den as int,
            0x8000_0000,
            0x8000_0000,
        );
        assert(0 <= image_width * aspect_ratio.den) by (nonlinear_arith)
            requires
                image_width >= 0,
                aspect_ratio.den > 0,
        ;
    }
    let scaled: i128 = (image_width as i128) * aspect_ratio.den;
    let exact: i128 = scaled / aspect_ratio.num;
    proof {
        assert(0 <= scaled / aspect_ratio.num) by (nonlinear_arith)
            requires
                scaled >= 0,
                aspect_ratio.num > 0,
        ;
    }
    if exact <= 0x7FFF_FFFF {
        exact as i32
    } else {
        0x7FFF_FFFF
    }
}

/// A sub-sample stays within half a pixel of its pixel's place on the axis:
/// the coordinate of sub-sample `sample` of pixel `index` lies in
/// `[(index - 1/2) / (extent - 1), (index + 1/2) / (extent - 1))`.
pub proof fn lemma_jitter_within_pixel(index: int, sample: int, samples: int, extent: int)
    requires
        0 <= index < extent <= i32::MAX,
        extent >= 2,
        0 <= sample < samples <= i32::MAX,
    ensures
        jitter(index, sample, samples, extent).wf(),
        jitter(index, sample, samples, extent).den == 2 * samples * (extent - 1),
        (2 * index - 1) * samples <= jitter(index, sample, samples, extent).num,
        jitter(index, sample, samples, extent).num < (2 * index + 1) * samples,
{
    lemma_product_bound(2 * samples, index, 0x1_0000_0000, 0x8000_0000);
    lemma_product_bound(2 * samples, extent - 1, 0x1_0000_0000, 0x8000_0000);
    lemma_product_positive(2 * samples, extent - 1);
    assert((2 * index - 1) * samples == 2 * samples * index - samples) by (nonlinear_arith);
    assert((2 * index + 1) * samples == 2 * samples * index + samples) by (nonlinear_arith);
}

/// The jittered coordinate of one sub-sample along one axis.
fn coordinate(index: usize, sample: i32, samples: i32, extent: i32) -> (c: Ratio)
    requires
        samples >= 1,
        extent >= 2,
        index < extent,
    ensures
        c == jitter(index as int, sample as int, samples as int, extent as int),
        c.wf(),
{
    let twice: i128 = 2 * (samples as i128);
    proof {
        lemma_product_bound(twice as int, index as int, 0x1_0000_0000, 0x8000_0000);
        lemma_product_bound(twice as int, extent - 1, 0x1_0000_0000, 0x8000_0000);
        lemma_product_positive(twice as int, extent - 1);
        assert(2 * (samples as int) * (index as int) == twice * index);
        assert(2 * (samples as int) * (extent - 1) == twice * (extent - 1));
    }
    Ratio {
        num: twice * (index as i128) + 2 * (sample as i128) - (samples as i128),
        den: twice * ((extent - 1) as i128),
    }
}

/// Cell `x` of row `y` of a grid with rows of `width` cells has the number
/// `y * width + x`, from which row and cell are recovered by division.
pub proof fn lemma_grid_index(y: int, x: int, width: int)
    requires
        0 <= y,
        0 <= x < width,
    ensures
        0 <= y * width + x,
        (y * width + x) / width == y,
        (y * width + x) % width == x,
{
    assert(0 <= y * width) by (nonlinear_arith)
        requires
            0 <= y,
            0 < width,
    ;
    vstd::arithmetic::div_mod::lemma_fundamental_div_mod_converse(y * width + x, width, y, x);
}

} // verus!
