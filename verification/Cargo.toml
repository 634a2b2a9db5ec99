[package]
name = "ipfrs_tensorlogic"
version = "0.1.0"
edition = "2021"
publish = false

[dependencies]
thiserror = "2"
serde = { version = "1", features = ["derive"] }
parking_lot = "0.12"
once_cell = "1"
