use vstd::prelude::*;
use crate::ratio::{lemma_product_bound, lemma_product_positive, Ratio};
use crate::vec3::{Color, Vec3, Vector};

verus! {

/// The sky colour in the direction of a unit vector with height `y / w`:
/// white at the bottom and `(1/2, 7/10, 1)` at the top, blended as
/// `white * (1 - t) + (1/2, 7/10, 1) * t` with `t = (y / w + 1) / 2`. Over the
/// denominator `20 * w` this is `(5 * (3 * w - y), 17 * w - 3 * y, 20 * w)`.
pub open spec fn sky_gradient(y: int, w: int) -> Vector {
    Vector { x: 5 * (3 * w - y), y: 17 * w - 3 * y, z: 20 * w, w: 20 * w }
}

/// The colour of a ray that leaves the scene in the direction
/// `unit_direction`, a vector of length one.
pub fn sky(unit_direction: Vec3) -> (c: Color)
    requires
        unit_direction.is_short(),
    ensures
        c.is_uniform(),
        c.model() == sky_gradient(unit_direction.y.num as int, unit_direction.x.den as int),
{
    let y = unit_direction.y.num;
    let w = unit_direction.x.den;
    Vec3::over_denominator(5 * (3 * w - y), 17 * w - 3 * y, 20 * w, 20 * w)
}

/// The sky gradient is the blend it is described as: with `t = (y + w) / (2 w)`
/// its components are `1 - t + t / 2`, `1 - t + 7 t / 10` and `1 - t + t`.
pub proof fn lemma_sky_is_blend(y: int, w: int)
    requires
        w > 0,
    ensures
        sky_gradient(y, w).wf(),
        // t = tn / td
        ({
            let tn = y + w;
            let td = 2 * w;
            let c = sky_gradient(y, w);
            &&& c.x * (2 * td) == (2 * (td - tn) + tn) * c.w
            &&& c.y * (10 * td) == (10 * (td - tn) + 7 * tn) * c.w
            &&& c.z * td == ((td - tn) + tn) * c.w
        }),
{
    let tn = y + w;
    let td = 2 * w;
    let c = sky_gradient(y, w);
    assert(c.x * (2 * td) == (2 * (td - tn) + tn) * c.w) by (nonlinear_arith)
        requires
            c.x == 5 * (3 * w - y),
            c.w == 20 * w,
            tn == y + w,
            td == 2 * w,
    ;
    assert(c.y * (10 * td) == (10 * (td - tn) + 7 * tn) * c.w) by (nonlinear_arith)
        requires
            c.y == 17 * w - 3 * y,
            c.w == 20 * w,
            tn == y + w,
            td == 2 * w,
    ;
    assert(c.z * td == ((td - tn) + tn) * c.w) by (nonlinear_arith)
        requires
            c.z == 20 * w,
            c.w == 20 * w,
    ;
}

/// `k` is the 8-bit value of a channel whose samples add up to `sum`: the
/// largest whole number of `0..=255` that is at most `256 * sqrt(sum /
/// samples)`, and 0 for a negative sum. Without the square root:
/// `k^2 * sum.den * samples <= 65536 * sum.num`, and `k + 1` is too large.
pub open spec fn is_channel(k: int, sum: Ratio, samples: int) -> bool {
    &&& 0 <= k <= 255
    &&& k == 0 || k * k * (sum.den * samples) <= 65536 * sum.num
    &&& k == 255 || (k + 1) * (k + 1) * (sum.den * samples) > 65536 * sum.num
}

/// The numerator and the denominator of a channel sum fit in 64 bits.
pub open spec fn fits_channel(sum: Ratio) -> bool {
    &&& -0x8000_0000_0000_0000 < sum.num < 0x8000_0000_0000_0000
    &&& 0 < sum.den < 0x8000_0000_0000_0000
}

/// Turns the sum of a channel over all samples of a pixel into its 8-bit
/// value: the average is gamma-corrected by a square root, clamped to
/// `[0, 0.999]`, scaled by 256 and cut to a whole number.
pub fn channel(sum: Ratio, samples_per_pixel: i32) -> (k: i32)
    requires
        fits_channel(sum),
        samples_per_pixel >= 1,
    ensures
        is_channel(k as int, sum, samples_per_pixel as int),
{
    proof {
        lemma_product_bound(
            sum.den as int,
            samples_per_pixel as int,
            0x8000_0000_0000_0000,
            0x8000_0000,
        );
        lemma_product_positive(sum.den as int, samples_per_pixel as int);
    }
    let n: i128 = 65536 * sum.num;
    let d: i128 = sum.den * (samples_per_pixel as i128);
    let mut k: i128 = 0;
    let mut found = false;
    while k < 255 && !found
        invariant
            0 <= k <= 255,
            0 < d <= 0x4000_0000_0000_0000_0000_0000,
            k == 0 || k * k * d <= n,
            found ==> (k + 1) * (k + 1) * d > n,
        decreases 256 - k - (if found {
            1int
        } else {
            0int
        }),
    {
        let next: i128 = k + 1;
        proof {
            lemma_product_bound(next as int, next as int, 255, 255);
            lemma_product_bound(
                next * next,
                d as int,
                65025,
                0x4000_0000_0000_0000_0000_0000,
            );
        }
        if next * next * d > n {
            found = true;
        } else {
            k = next;
        }
    }
    k as i32
}

/// The three 8-bit channels of a pixel.
#[derive(Clone, Copy, Debug, PartialEq, Eq, Structural)]
pub struct Rgb {
    pub r: i32,
    pub g: i32,
    pub b: i32,
}

/// Turns the sum of the colours of all samples of a pixel into the pixel's
/// three 8-bit channels.
pub fn channels(pixel_color: Color, samples_per_pixel: i32) -> (rgb: Rgb)
    requires
        fits_channel(pixel_color.x),
        fits_channel(pixel_color.y),
        fits_channel(pixel_color.z),
        samples_per_pixel >= 1,
    ensures
        is_channel(rgb.r as int, pixel_color.x, samples_per_pixel as int),
        is_channel(rgb.g as int, pixel_color.y, samples_per_pixel as int),
        is_channel(rgb.b as int, pixel_color.z, samples_per_pixel as int),
{
    Rgb {
        r: channel(pixel_color.x, samples_per_pixel),
        g: channel(pixel_color.y, samples_per_pixel),
        b: channel(pixel_color.z, samples_per_pixel),
    }
}

/// A channel has one value only: two numbers that both meet `is_channel` are
/// equal.
pub proof fn lemma_channel_unique(j: int, k: int, sum: Ratio, samples: int)
    requires
        sum.den > 0,
        samples >= 1,
        is_channel(j, sum, samples),
        is_channel(k, sum, samples),
    ensures
        j == k,
{
    let d = sum.den * samples;
    let n = 65536 * sum.num;
    lemma_product_positive(sum.den as int, samples);
    if j < k {
        assert((j + 1) * (j + 1) * d <= k * k * d) by (nonlinear_arith)
            requires
                0 <= j,
                j + 1 <= k,
                d > 0,
        ;
    }
    if k < j {
        assert((k + 1) * (k + 1) * d <= j * j * d) by (nonlinear_arith)
            requires
                0 <= k,
                k + 1 <= j,
                d > 0,
        ;
    }
}

} // verus!
