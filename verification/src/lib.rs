//! Cardinality constraints over boolean variables, encoded as clauses for a
//! SAT solver.
//!
//! The encoders take a `varisat::CnfFormula`, allocate the helper variables
//! they need from it and append their clauses to it.  Every encoder comes with
//! a mathematical description of the clauses it appends and with the proof of
//! what those clauses mean for the assignments that satisfy the formula.

pub mod lit;
pub mod formula;
pub mod semantics;
pub mod counting;
pub mod buffer;
pub mod commander;
pub mod sorting;
pub mod network;
pub mod cardinality;

pub use crate::lit::{Lit, MAX_VAR_COUNT};
pub use crate::formula::{EncodeError, Cnf};
pub use crate::cardinality::{commander_exactly_one, add_exactly_one, add_at_most_one,
    make_sorting_network, exactly_k};
