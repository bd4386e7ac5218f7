[package]
name = "my_redis"
version = "0.1.0"
edition = "2021"
publish = false

[dependencies]
tokio = { version = "1", features = ["full"] }
structopt = "0.3"
tracing = "0.1"
tracing-subscriber = "0.3"
