[package]
name = "zerooraclaw"
version = "0.1.0"
edition = "2021"
publish = false

[dependencies]
sha2 = "*"
chrono = "*"
oracle = "*"
tokio = { version = "*", features = ["rt-multi-thread", "macros"] }
async-trait = "*"
anyhow = "*"
tracing = "*"
uuid = { version = "*", features = ["v4"] }
directories = "*"
parking_lot = "*"
