[package]
name = "dataspringflow_rs"
version = "0.1.0"
edition = "2021"
publish = false

[dependencies]
blake3 = { version = "1", features = ["rayon"] }
whoami = "*"
anyhow = "1"
clap = { version = "4", features = ["derive"] }
colored = "*"
dialoguer = "*"
directories = "*"
log = "0.4"
env_logger = "*"
libc = "0.2"
rusqlite = { version = "*", features = ["bundled"] }
r2d2 = "*"
r2d2_sqlite = "*"
serde = { version = "1", features = ["derive"] }
serde_json = "1"
serde_yaml = "0.9"
walkdir = "2"
rayon = "1"

[dev-dependencies]
tempfile = "3"
