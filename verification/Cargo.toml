[package]
name = "node_editor"
version = "0.1.0"
edition = "2021"
publish = false

[dependencies]
AsgoreCore = "*"
bincode = "1"
colored = "2"
serde = { version = "1", features = ["derive"] }
terminal_size = "0.3"
