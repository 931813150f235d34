[package]
name = "cargo_deltabuild"
version = "0.1.0"
edition = "2021"
publish = false

[dependencies]
glob = "*"
encoding_rs = "*"
serde = { version = "1", features = ["derive"] }
serde_json = "1"
syn = { version = "2", features = ["full", "visit"] }
toml = "*"
argh = "*"
normpath = "*"
thiserror = "*"
