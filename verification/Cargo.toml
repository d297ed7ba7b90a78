[package]
name = "skills"
version = "0.1.0"
edition = "2021"
publish = false

[dependencies]
sha2 = "=0.10.9"
chrono = "=0.4.45"
serde = { version = "=1.0.229", features = ["derive"] }
serde_json = "=1.0.154"
toml = "=0.8.23"
dirs = "=5.0.1"
clap = { version = "=4.6.7", features = ["derive"] }
dialoguer = "=0.11.0"
ratatui = "=0.29.0"
crossterm = "=0.28.1"
axum = "=0.7.9"
tokio = { version = "=1.54.1", features = ["rt-multi-thread", "net", "macros"] }
open = "=5.4.5"
gix = { version = "=0.75.0", default-features = false, features = ["blocking-network-client", "worktree-mutation"] }
kstring = "=2.0.2"
