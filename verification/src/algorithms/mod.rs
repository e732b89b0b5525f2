//! The two search skeletons and the interfaces through which they are driven.
pub mod traits;
pub mod greedy;
pub mod local_search;
