//! Transport primitives: requests, framing, authentication and peer bookkeeping.

pub mod network;
pub mod network_laws;
pub mod secure_mesh;

pub use network::{CountMismatch, ReceiveRequest, RecvLen, SendLen, SendRequest};
