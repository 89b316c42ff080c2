//! Arithmetic data-dependency analysis over a function body: which locals
//! are computed, directly or transitively, from a given local.

pub mod mir;
pub mod matrix;
pub mod callgraph;
pub mod closure;
pub mod laws;
