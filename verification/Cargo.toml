[package]
name = "linera_views"
version = "0.1.0"
edition = "2021"
publish = false

[dependencies]
serde = "1"
bcs = "0.1"
async-trait = "0.1"
futures = "0.3"
sha2 = "0.10"
generic-array = "0.14"
