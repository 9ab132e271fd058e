// A ray tracer on an integer lattice: planar patches and spheres, a
// bounding-volume hierarchy that answers nearest-hit queries exactly as a
// linear scan does, and a tree of shaders evaluated in fixed point, with
// shadow rays and a budget on mirror reflections.
use vstd::prelude::*;

pub mod arith;
pub mod bvh;
pub mod geom;
pub mod light;
pub mod plane;
pub mod primitive;
pub mod shader;
pub mod sphere;
pub mod world;

verus! {

} // verus!
