[package]
name = "hexcells_solver"
version = "0.1.0"
edition = "2021"
publish = false

[dependencies]
itertools = "0.10"
rayon = "1"
rand = "0.8"
serde = { version = "1", features = ["derive"] }
