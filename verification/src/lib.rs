//! The core of an offline Monte Carlo ray tracer.
//!
//! The crate holds what a renderer decides and counts: the pixel buffer and
//! the order in which it is filled, the loop over pixels and samples, the
//! recursion of the light-transport estimate with its depth bound, the
//! nearest-hit scan over the primitives of a scene, and the random draws with
//! their rejection tests, which are held as exact fractions.
//!
//! Real-valued geometry and shading are not part of it. The host program
//! hands them in as closures, and every contract here is stated over what
//! those closures promise.

pub mod render_buffer;
pub mod renderable;
pub mod renderer;
pub mod sampling;
