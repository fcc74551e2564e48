[package]
name = "osp_core"
version = "0.1.0"
edition = "2021"
publish = false

[dependencies]
serde = { version = "1", features = ["derive"] }
uuid = { version = "1", features = ["v4", "serde"] }
typed-index-collections = "*"
rand = "0.8"
thiserror = "*"
ts-rs = "*"
