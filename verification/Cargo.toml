[package]
name = "reactive_stores"
version = "0.1.0"
edition = "2021"
publish = false

[dependencies]
reactive_graph = { version = "=0.2.15", features = ["effects"] }
any_spawner = { version = "=0.3.0", features = ["futures-executor"] }
futures = "=0.3.34"
