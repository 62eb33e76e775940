[package]
name = "pilar_core"
version = "0.1.0"
edition = "2021"
publish = false

[dependencies]
stop-words = "*"
serde = { version = "1", features = ["derive"] }
toml = "0.8"
reqwest = { version = "0.12", default-features = false, features = ["blocking", "json"] }
nalgebra = "0.33"
rand = "0.8"
rand_distr = "0.4"
