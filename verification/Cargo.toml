[package]
name = "mtree"
version = "0.1.0"
edition = "2021"
publish = false

[dependencies]
lru = "=0.19.0"
once_cell = "=1.21.4"
regex = "=1.13.1"
revision = { version = "=0.30.0", features = ["regex"] }
serde = "=1.0.229"
