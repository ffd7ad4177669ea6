[package]
name = "delta_join"
version = "0.1.0"
edition = "2021"
publish = false

[dependencies]
timely = "*"
differential-dataflow = "*"
serde = { version = "*", features = ["derive"] }
