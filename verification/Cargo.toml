[package]
name = "vega_small_value"
version = "0.1.0"
edition = "2021"
publish = false

[dependencies]
pasta_curves = "0.5"
ff = "0.13"
num-integer = "0.1"
num-traits = "0.2"
sha2 = "0.10"
serde = { version = "1", features = ["derive"] }
