//! The exact core of a path tracer.
//!
//! Everything here works on integers and exact fractions, so that every
//! result is reproducible bit for bit and every contract is a statement of
//! arithmetic.
//!
//! - [`rng`] and [`orbit`]: the deterministic sample generator, the samples
//!   derived from it, and the laws of its orbit.
//! - [`ratio`], [`vec3`], [`ray`], [`utils`]: exact fractions, the algebra of
//!   vectors over a common denominator, rays, clamping and whole square
//!   roots.
//! - [`sphere`], [`hit_record`], [`hittable_list`]: the intersection of a ray
//!   with a sphere and with a scene.
//! - [`material`]: the surfaces, their colours and their scatter rules.
//! - [`scene`]: the two scenes.
//! - [`job`], [`transport`], [`pixel`]: the jobs of an image and their sampling
//!   grids, the bounce budget of a light path, the sky gradient and the 8-bit
//!   value of a channel.
//!
//! What takes a square root or a tangent has no exact result in general, and
//! is left to the renderer that is built on this core: normalising a vector,
//! refracting a ray, setting up a camera. Where a function here needs such a
//! value, it takes it as an argument: a sphere is intersected for a given
//! root of the discriminant, a surface scatters for a given unit vector.

pub mod hit_record;
pub mod hittable_list;
pub mod job;
pub mod material;
pub mod orbit;
pub mod pixel;
pub mod ratio;
pub mod ray;
pub mod rng;
pub mod scene;
pub mod sphere;
pub mod transport;
pub mod utils;
pub mod vec3;
