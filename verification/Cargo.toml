[package]
name = "codetracer_miden_recorder"
version = "0.1.0"
edition = "2021"
publish = false

[dependencies]
clap = { version = "=4.6.7", features = ["derive"] }
codetracer_trace_types = "=0.16.3"
eyre = "=0.6.14"
miden-assembly = "=0.14.0"
miden-core = "=0.14.0"
miden-processor = "=0.14.0"
miden-stdlib = { version = "=0.14.0", features = ["with-debug-info"] }
serde = { version = "=1.0.229", features = ["derive"] }
serde_json = "=1.0.154"
