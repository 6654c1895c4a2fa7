//! Rectangular floorplanning: Pareto shape functions, slicing trees encoded
//! as postfix expressions and evaluated incrementally, sequence pairs packed
//! by longest common weighted subsequence, half-perimeter wirelength, the
//! instance text format, and the local moves that an annealing search
//! applies to either representation.

pub mod geometry;
pub mod shape_function;
pub mod wirelength;
pub mod sequence_pair;
pub mod search;
pub mod postfix;
pub mod slicing_tree;
pub mod polish_expression;
pub mod hypergraph;
pub mod instance;
mod rng;
