use vstd::prelude::*;

pub mod bvh;
pub mod config;
pub mod integrator;
pub mod materials;
pub mod mesh;
pub mod render;
pub mod traversal;

verus! {

} // verus!
