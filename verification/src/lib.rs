//! Fixed-point kernel of a two-dimensional particle simulation: circular
//! bodies in a disk-shaped container, moved by a Verlet integrator, pushed
//! apart where they overlap, and kept inside the container.
//!
//! Coordinates are signed integers that count fixed-point units, of which
//! 2^32 make one unit of length; the contracts are stated over
//! mathematical integers.

pub mod arith;
pub mod root;
pub mod vector;
pub mod boundary;
pub mod grid;
pub mod pair;
pub mod collide;
pub mod integrate;
pub mod step;
pub mod mesh;
