[package]
name = "datamap"
version = "0.1.0"
edition = "2021"
publish = false

[dependencies]
dotenv = "=0.15.0"
tokio = { version = "=1.53.2", features = ["fs", "io-util", "macros", "net", "rt", "signal", "sync"] }
