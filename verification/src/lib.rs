//! Multi-party computation core: circuits, the engine that runs them, and the
//! rules of the channels between the parties.

pub mod example;
pub mod mpc;
pub mod networking;
pub mod seqs;
pub mod text;
