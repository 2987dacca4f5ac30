[package]
name = "opendaemon"
version = "0.1.0"
edition = "2021"
publish = false

[dependencies]
petgraph = "*"
regex = "1"
serde = { version = "1", features = ["derive"] }
serde_json = "1"
thiserror = "*"
tokio = { version = "1", features = ["full"] }
clap = { version = "4", features = ["derive"] }
nix = { version = "*", features = ["signal"] }
reqwest = { version = "*", default-features = false }
