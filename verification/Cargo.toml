[package]
name = "mlx_ops"
version = "0.1.0"
edition = "2021"
publish = false

[dependencies]
burn-tensor = { version = "=0.21.0", default-features = false, features = ["std"] }
mlx-rs = { version = "0.32.0", default-features = false }
num-traits = "=0.2.19"
