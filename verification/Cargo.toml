[package]
name = "progonka"
version = "0.1.0"
edition = "2021"
publish = false

[dependencies]
rug = { version = "*", default-features = false, features = ["integer"] }
num-bigint = "*"
serde = { version = "*", features = ["derive"] }
serde_json = "*"
toml = "*"
tokio = { version = "*", features = ["rt-multi-thread", "net", "macros", "io-util"] }
tokio-tungstenite = "*"
futures-util = "*"
