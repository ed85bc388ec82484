[package]
name = "plox"
version = "0.1.0"
edition = "2021"
publish = false

[dependencies]
byteorder = "1"
log = "0.4"
serde = { version = "1", features = ["derive"] }
toposort-scc = "*"
