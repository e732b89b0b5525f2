//! Heuristic search for two-dimensional rectangle bin packing.
//!
//! Rectangles, optionally turned by a quarter, are laid into square bins of a
//! fixed side so that no two of them overlap inside a bin. The crate offers a
//! greedy construction and a first-improvement local search, both generic over
//! the strategy that drives them, together with the packing model they share.
pub mod algorithms;
pub mod generator;
pub mod problem;
pub mod random;
