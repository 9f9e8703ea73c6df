//! The discrete core of a stochastic path tracer.
//!
//! A path tracer computes with real numbers: vectors, roots of quadratics,
//! random directions, colours. Around that arithmetic stands a frame of
//! decisions and index computations that are exact, and this crate holds
//! them, each with a proved contract:
//!
//! - `distance`: the order of ray parameters and coordinates, as integer keys;
//! - `hit`: the scene list and its search for the nearest hit;
//! - `objects`: which root, which stretch and which crossing a primitive
//!   accepts, and the six sides of a box;
//! - `integrator`: how a light path goes on after each encounter, and when it ends;
//! - `texture`: the texel that a bitmap lookup reads;
//! - `perlin`: the permutation tables of gradient noise and their hash;
//! - `framebuffer`: the assembly of scanlines into the finished image.
//!
//! The caller does the arithmetic and hands over what it found.

pub mod distance;
pub mod framebuffer;
pub mod hit;
pub mod integrator;
pub mod objects;
pub mod perlin;
pub mod texture;
