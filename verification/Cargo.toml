[package]
name = "raxos"
version = "0.1.0"
edition = "2021"
publish = false

[dependencies]
async-trait = "=0.1.92"
plotters = { version = "=0.3.7", default-features = false, features = ["bitmap_backend", "bitmap_encoder", "line_series"] }
rand = "=0.8.8"
thiserror = "=1.0.69"
validit = "=0.2.6"
