[package]
name = "griddb"
version = "0.1.0"
edition = "2021"
publish = false

[dependencies]
sled = "=0.34.7"

[dev-dependencies]
ilattice = { version = "=0.4.0", features = ["morton-encoding"] }
