//! The packing problem: rectangles, placements, bins and solutions.
pub mod rect;
pub mod placement;
pub mod bin;
pub mod sums;
pub mod measure;
pub mod instance;
pub mod solution;
pub mod first_fit;
pub mod permutation;
pub mod coverage;
pub mod greedy;
pub mod tolerance;
pub mod moves;
pub mod move_laws;
pub mod local_search;
pub mod annealing;
