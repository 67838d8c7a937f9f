[package]
name = "spatial_transforms"
version = "0.1.0"
edition = "2021"
publish = false

[dependencies]
arrayref = "0.3"
byteorder = "1"
log = "0.4"
measure_time = "*"
memmap = "0.7"
pretty_env_logger = "0.5"
reqwest = { version = "0.11", default-features = false, features = ["blocking", "json"] }
serde = { version = "1", features = ["derive"] }
serde_derive = "1"
serde_json = "1"
