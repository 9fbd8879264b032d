//! Hex-game connectivity and exhaustive winning-move search, with the small
//! decimal-digit helpers that go with it.

pub mod board_model;
pub mod chains;
pub mod disjoint_set;
pub mod fin_dec;
pub mod graph;
pub mod hex_graph;
pub mod hex_solver;
