[package]
name = "atlaswiki"
version = "0.1.0"
edition = "2021"
publish = false

[dependencies]
anyhow = "=1.0.104"
clap = { version = "=4.6.7", features = ["derive"] }
colored = "=2.2.0"
half = "=2.7.1"
hf-hub = { version = "0.4", default-features = false, features = ["ureq", "rustls-tls"] }
ignore = "=0.4.34"
notify = "=6.1.1"
petgraph = "=0.6.5"
rayon = "=1.12.0"
regex = "=1.13.1"
rusqlite = { version = "=0.31.0", features = ["bundled"] }
safetensors = "=0.4.5"
serde = { version = "=1.0.229", features = ["derive"] }
serde_json = "=1.0.154"
serde_yaml = "=0.9.34"
sha2 = "=0.10.9"
thiserror = "=1.0.69"
tiny_http = "=0.12.0"
tokenizers = { version = "=0.21.4", default-features = false, features = ["fancy-regex"] }
