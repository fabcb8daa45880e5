[package]
name = "read_holds"
version = "0.1.0"
edition = "2021"
publish = false

[dependencies]
timely = "=0.12.0"
differential-dataflow = "=0.12.0"
tokio = { version = "=1.54.1", default-features = false, features = ["sync"] }
tracing = "=0.1.44"
serde = { version = "=1.0.229", features = ["derive"] }
