[package]
name = "nexus_ecs"
version = "0.1.0"
edition = "2021"
publish = false

[dependencies]
parking_lot = "0.12"
rayon = "1"
