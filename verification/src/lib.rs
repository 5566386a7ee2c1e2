//! Static analysis of a small imperative language by abstract interpretation.
//!
//! For a program and assumptions on its variables, the analysis computes a
//! state for the head of every loop and for the end of the program: for each
//! variable an abstract value, by default an interval, that holds every
//! value that the variable can have there.
//!
//! - `abstract_domains`: the interface of a numeric domain and the interval
//!   domain, with its laws;
//! - `state`: abstract states;
//! - `propagation_algo`: the refinement of a state by a condition;
//! - `interpreter`: the evaluation of statements, with widening and
//!   narrowing at loops;
//! - `invariants`: the result of an analysis;
//! - `parser`: the language, from characters to syntax trees;
//! - `utils`: the assumptions of a source text and the annotated output;
//! - `semantics` and `soundness`: what programs do, and that the analysis
//!   over intervals describes it;
//! - `termination`: that with widening the search for a loop invariant
//!   ends by itself;
//! - `text`: the handling of characters that the others share.

pub mod abstract_domains;
pub mod interpreter;
pub mod invariants;
pub mod parser;
pub mod propagation_algo;
pub mod semantics;
pub mod soundness;
pub mod state;
pub mod termination;
pub mod text;
pub mod utils;
