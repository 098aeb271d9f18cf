[package]
name = "t-rex-core"
version = "0.1.0"
edition = "2021"
publish = false

[dependencies]
flate2 = "1"
postgres = "0.19"
postgis = "*"

[dev-dependencies]
protobuf = "*"
