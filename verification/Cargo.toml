[package]
name = "timetable_flow"
version = "0.1.0"
edition = "2021"
publish = false

[dependencies]
petgraph = "*"
serde = { version = "*", features = ["derive"] }
bincode = "1"
colored = "*"
rand = "*"
