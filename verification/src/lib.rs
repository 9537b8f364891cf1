//! A translator from a line-oriented description of a finite-state transducer
//! to table-driven C source.
//!
//! A description is a list of lines `state, input[, input...] > next, output`.
//! [`machine::Machine::from_str`] reads it into a transition table,
//! [`machine::Machine::is_complete`] judges the table and
//! [`machine::Machine::to_c`] and [`machine::Machine::to_c_editline`] render it.

pub mod text;
pub mod error;
pub mod scan;
pub mod counts;
pub mod emit;
pub mod listing;
pub mod machine;
pub mod laws;
