[package]
name = "dynakit"
version = "0.1.0"
edition = "2021"
publish = false

[dependencies]
bincode = "=1.3.3"
matrixmultiply = "=0.3.11"
parry3d-f64 = { version = "=0.31.1", features = ["serde-serialize"] }
serde = { version = "=1.0.229", features = ["derive"] }
simba = "=0.10.2"

[dev-dependencies]
nalgebra = "=0.35.0"
