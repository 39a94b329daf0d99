//! Twin-width upper bounds for undirected simple graphs.
//!
//! The crate models a graph as a symmetric, irreflexive adjacency map,
//! contracts node pairs greedily to minimise the red degree that each
//! contraction produces, and reports the achieved width together with
//! the witnessing contraction sequence.

pub mod algo;
pub mod gr_format;
pub mod graph;
