[package]
name = "toy-cow"
version = "0.1.0"
edition = "2021"
publish = false

[dependencies]
memmap2 = "0.9"
rusqlite = { version = "0.31", features = ["bundled"] }
rustix = { version = "0.38", features = ["fs"] }
serde = { version = "1", features = ["derive"] }
