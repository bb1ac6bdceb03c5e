[package]
name = "double_auction"
version = "0.1.0"
edition = "2021"
publish = false

[dependencies]
serde = { version = "=1.0.229", features = ["derive"] }
serde_json = "=1.0.154"
chrono = "=0.4.45"
risc0-zkvm = "=3.0.6"
risc0-groth16 = { version = "=3.0.5", features = ["prove"] }
