//! Soundness of the analysis over intervals: what the abstract semantics
//! computes holds of every run of the program.
//!
//! - `conditions`: abstract values denote the values of expressions, and the
//!   refinement by a condition keeps the valuations of which it holds;
//! - `guards`: the same for Boolean expressions;
//! - `shapes`: the analysis keeps the variables of a state;
//! - `statements`: the state at the end of a statement and the invariants
//!   of loops describe every run.

pub mod conditions;
pub mod guards;
pub mod shapes;
pub mod statements;
