[package]
name = "kurogane"
version = "0.1.0"
edition = "2021"
publish = false

[dependencies]
prost = "0.14"
rand = "0.9"
tokio = { version = "1", features = ["macros", "net", "rt-multi-thread", "sync", "time"] }
tonic = "0.14"
tonic-prost = "0.14"
