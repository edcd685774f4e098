[package]
name = "param_solver"
version = "0.1.0"
edition = "2021"
publish = false

[dependencies]
ad_trait = "=0.3.1"
anyhow = "=1.0.104"
argmin = "=0.11.0"
argmin-math = { version = "=0.5.1", features = ["nalgebra_latest"] }
nalgebra = "=0.34.2"
rand = "=0.9.5"
