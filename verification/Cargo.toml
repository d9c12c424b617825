[package]
name = "zkvm_executor"
version = "0.1.0"
edition = "2021"
publish = false

[dependencies]
addr2line = "0.21"
anyhow = "1"
bytemuck = "1"
crypto-bigint = "0.5"
hex = "0.4"
rrs-lib = "0.1"
serde = { version = "1", features = ["derive"] }
sha2 = { version = "0.10", features = ["compress"] }
tempfile = "3"
tracing = "0.1"
