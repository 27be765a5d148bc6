[package]
name = "ngx_laser"
version = "0.1.0"
edition = "2021"
publish = false

[dependencies]
clap = { version = "4", features = ["derive"] }
cli-log = { version = "2", features = ["mem"] }
config-file = "0.2"
flate2 = "1"
hyper = { version = "0.14", features = ["server", "http1", "tcp", "runtime"] }
once_cell = "1"
serde = { version = "1", features = ["derive"] }
serde_json = "1"
thiserror = "1"
tokio = { version = "1", features = ["rt-multi-thread", "macros"] }
