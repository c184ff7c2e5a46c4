[package]
name = "deptrace"
version = "0.1.0"
edition = "2021"
publish = false

[dependencies]
indexmap = "2"
toml = "*"
colored = "*"
serde = { version = "1", features = ["derive"] }
clap = { version = "4", features = ["derive"] }
miette = { version = "7", features = ["fancy"] }
thiserror = "2"
indicatif = "*"
lddtree = "*"
cargo_metadata = "*"
