//! Circuits, schemes and the execution of a circuit by one party.

mod arrangement;
pub mod circuit;
pub mod circuit_laws;
pub mod config;
pub mod engine_laws;
pub mod error;
pub mod execution;
pub mod history;
pub mod digest;
mod linking;
pub mod phases;
pub mod schedule;
pub mod schedule_order;
pub mod scheme;
mod sorting;

pub use circuit::{MpcCircuit, MpcCircuitError, Round, WireId};
pub use config::{MpcConfig, MpcConfigError};
pub use error::{ExecutionContextError, ExecutionState};
pub use execution::{ExecutionContext, Handshake, Step};
pub use phases::Exchange;
pub use scheme::{Describe, FinalizePhaseOutput, MpcScheme, NetworkPhaseOutput, Operation};
