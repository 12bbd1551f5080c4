//! Concrete schemes.

pub mod additive;
pub mod additive_laws;
pub mod executions;
pub mod joint;
pub mod wire_types;
