[package]
name = "blockdelete"
version = "0.1.0"
edition = "2021"
publish = false

[dependencies]
glob = "*"
serde = { version = "*", features = ["derive"] }
serde_json = "*"
crossbeam-channel = "*"
ctrlc = "*"
clap = { version = "*", features = ["derive"] }

[dev-dependencies]
strsim = "*"
