[package]
name = "kvs"
version = "0.1.0"
edition = "2021"
publish = false

[dependencies]
rayon = "=1.12.0"
serde_json = "=1.0.154"
slog = "=2.8.2"
slog-async = "=2.8.0"
slog-term = "=2.9.2"
structopt = "=0.3.26"
thiserror = "=1.0.69"

[dev-dependencies]
bincode = "=1.3.3"
