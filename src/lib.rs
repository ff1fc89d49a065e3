//! Hamiltonian cycles on the odd-coordinate octahedral lattice, built by
//! spinning a path on one slab, weaving it through the slabs below, mirroring
//! it through `z = 0` and stitching the resulting cycles together.

pub mod cycle;
pub mod geometry;
pub mod loom;
pub mod shrink;
pub mod spin;
pub mod stitch;
pub mod types;
pub mod weave;
