//! Graph algorithms over validated immutable graphs.
pub mod count;
pub mod model;
pub mod order;
pub mod weight;
pub mod graph;
pub mod cycles;
pub mod random;
pub mod centrality;
pub mod community;
pub mod layout;
