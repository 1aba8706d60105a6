//! Combinatorial core of an adaptive octree mesher: Morton keys that address
//! the cells of an octree, and the bookkeeping of the cells that survive each
//! refinement step, with the edges between adjacent survivors.

pub mod interval;
pub mod key;
pub mod key_laws;
pub mod mesh_laws;
pub mod mesh_tree;
