[package]
name = "openqbw"
version = "0.1.0"
edition = "2021"
publish = false

[dependencies]
opensqlany = "=0.1.1"
thiserror = "=2.0.21"
anyhow = "=1.0.104"
clap = { version = "=4.6.7", features = ["derive"] }
rusqlite = { version = "=0.41.1", features = ["bundled"] }
