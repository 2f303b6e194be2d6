[package]
name = "docstore"
version = "0.1.0"
edition = "2021"
publish = false

[dependencies]
bson = "2"
dashmap = "5"
parking_lot = "0.12"
serde = "1"
