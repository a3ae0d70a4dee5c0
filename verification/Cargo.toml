[package]
name = "p3_fri"
version = "0.1.0"
edition = "2021"
publish = false

[dependencies]
p3-field = "=0.2.0"
p3-matrix = "=0.2.0"
p3-util = "=0.2.0"
p3-baby-bear = "=0.2.0"
p3-challenger = "=0.2.0"
p3-commit = "=0.2.0"
serde = { version = "=1.0.229", features = ["derive"] }

[dev-dependencies]
p3-dft = "=0.2.0"
rand = "=0.8.8"
