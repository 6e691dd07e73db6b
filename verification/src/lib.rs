//! Core of a progressive path tracer: the pixel buffer, its partition into
//! disjoint mutable regions, and the bookkeeping of a rendering pass.

pub mod clamp;
pub mod image;
pub mod layout;
pub mod raytracer;
