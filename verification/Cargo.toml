[package]
name = "banking_exercise"
version = "0.1.0"
edition = "2021"
publish = false

[dependencies]
crossbeam-channel = "0.5"
csv = "1"
num_cpus = "1"
rayon = "1"
rust_decimal = "1"
serde = { version = "1", features = ["derive"] }
structopt = "0.3"
tracing = "0.1"
tracing-subscriber = { version = "0.3", features = ["env-filter"] }
