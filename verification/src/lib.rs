//! Optimization problems, the algorithms that solve them and the reductions
//! between them, with the 0/1 knapsack problem as the worked domain.
//!
//! Every algorithm states what it accepts and what it guarantees as
//! specification functions, so that a caller learns from a call exactly what
//! the algorithm's contract promises.
pub mod algorithm;
pub mod knapsack;
pub mod primitives;
pub mod problem;
pub mod program;
pub mod reduction;
pub mod solver;
pub mod text;
