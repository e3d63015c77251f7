[package]
name = "clob_core"
version = "0.1.0"
edition = "2021"
publish = false

[dependencies]
tiny-keccak = { version = "=2.0.2", features = ["keccak"] }
k256 = { version = "=0.13.4", features = ["ecdsa"] }
hashbrown = "=0.14.5"
hex = "=0.4.3"
serde = { version = "=1.0.229", features = ["derive"] }
serde_json = "=1.0.154"
clap = { version = "=4.6.7", features = ["derive"] }
dotenv = "=0.15.0"
sp1-zkvm = { version = "=6.10.0", default-features = false, features = ["lib"] }
