[package]
name = "spark_dump"
version = "0.1.0"
edition = "2021"
publish = false

[dependencies]
regex = "*"
clap = { version = "*", features = ["derive"] }
prost = "*"
serde = { version = "*", features = ["derive"] }
serde_json = "*"
thiserror = "*"
