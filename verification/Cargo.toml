[package]
name = "mpc_core"
version = "0.1.0"
edition = "2021"
publish = false

[dependencies]
anyhow = "1"
base64 = "0.22"
chacha20poly1305 = "0.10"
ed25519-dalek = { version = "2", features = ["rand_core"] }
futures = "0.3"
itertools = "0.13"
postcard = { version = "1", features = ["use-std"] }
rand = "0.8"
serde = { version = "1", features = ["derive"] }
sha3 = "0.10"
snafu = "0.8"
tokio = { version = "1", features = ["io-util", "macros", "net", "rt", "rt-multi-thread", "sync", "time"] }
x25519-dalek = { version = "2", features = ["static_secrets"] }
