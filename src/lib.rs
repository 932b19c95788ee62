//! The exact core of a Monte Carlo ray tracer: random streams and their seeds,
//! the shuffled pixel schedule, path termination decisions, image grids, the
//! mesh file grammar and shared vertex table, the triangle KD-tree, the split
//! choice of the oblique-split tree, and the view-point tree of photon mapping.
//! Coordinates reach the trees as order keys: integers that order as the
//! floating-point coordinates they stand for.

pub mod rng;
pub mod grid;
pub mod pic;
pub mod image;
pub mod schedule;
pub mod path;
pub mod kdtree;
pub mod mesh;
pub mod obj;
pub mod sppm;
pub mod bsp;
