//! Combinatorial core of a four-dimensional rigid-body simulator.
//!
//! The library holds what a simulation of rigid bodies in four dimensions
//! decides without coordinates: the enumeration of the cosets of a Coxeter
//! group and the polytope mesh that is built from it, the clipping of a cell
//! by half-spaces, the search for a separating axis with its cache, the order
//! of a tick, and the indices of the tetrahedra that a renderer slices. The
//! caller measures in floating point and hands in what it found.

pub mod bfs;
pub mod cache;
pub mod clip;
pub mod counting;
pub mod coxeter;
pub mod faithful;
pub mod index_list;
pub mod mesh;
pub mod polytope;
pub mod sat;
pub mod select;
pub mod shapes;
pub mod slice;
pub mod table;
pub mod tetrahedra;
pub mod work;
pub mod world;
