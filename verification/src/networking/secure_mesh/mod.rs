//! A mesh of authenticated and encrypted channels, one between each two parties.

pub mod bytes;
pub mod channel_history;
pub mod channel_laws;
pub mod crypto;
pub mod handshake;
pub mod identity;
pub mod mesh_laws;
pub mod mesh_network;
pub mod roster;
pub mod secure_stream;

pub use handshake::{Agreement, KeyExchange, SigningIdentity};
pub use mesh_network::MeshNetwork;
pub use roster::Roster;
pub use secure_stream::{ConnectionRole, SecureStream};
