//! A recursive, stochastic ray tracer over spheres.
//!
//! Quantities are fixed-point numbers (see [`fixed`]): a real `x` is held as
//! the integer `x * 65536`, and every operation is stated exactly over the
//! integers, rounding down and saturating at the ends of the range.
//!
//! The library draws no random numbers itself. Each place that needs chance
//! (a scattering event, a grid cell of the demonstration scene, a camera
//! sample) takes the values it consumes as an argument, so that every result
//! is a function of its inputs and is stated as one.
//!
//! - [`vec`], [`ray`]: vectors, points and colours; rays.
//! - [`sphere`], [`hittable`]: ray-sphere intersection and the nearest hit
//!   over a scene.
//! - [`material`], [`lambertian`], [`metal`], [`dielectric`]: scattering.
//! - [`camera`]: a thin-lens camera.
//! - [`render`]: the light-transport estimate, pixels and their bytes.
//! - [`sample`]: the acceptance steps of the rejection samplers.
//! - [`scene`]: the demonstration scene.
pub mod fixed;
pub mod vec;
pub mod ray;
pub mod hittable;
pub mod material;
pub mod lambertian;
pub mod metal;
pub mod dielectric;
pub mod sphere;
pub mod render;
pub mod camera;
pub mod sample;
pub mod scene;
