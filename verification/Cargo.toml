[package]
name = "mdp_solver"
version = "0.1.0"
edition = "2021"
publish = false

[dependencies]
rand = "=0.8.8"
serde = { version = "=1.0.229", features = ["derive"] }
serde_json = "=1.0.154"
chrono = "=0.4.45"
grb = { version = "=3.0.1", features = ["gurobi12"] }
