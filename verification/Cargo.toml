[package]
name = "velocity_code"
version = "0.1.0"
edition = "2021"
publish = false

[dependencies]
base64 = "0.22"
bincode = { version = "2", features = ["serde"] }
blake3 = "1"
clap = { version = "4", features = ["derive"] }
ignore = "0.4"
memchr = "2"
rayon = "1"
regex = "1"
serde = { version = "1", features = ["derive"] }
serde_json = "1"
sha2 = "0.10"
tree-sitter = "0.25"
tree-sitter-rust = "0.24"
