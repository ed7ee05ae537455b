[package]
name = "aggregation_tree"
version = "0.1.0"
edition = "2021"
publish = false

[dependencies]
nohash-hasher = "0.2"
parking_lot = { version = "0.12", features = ["arc_lock"] }
