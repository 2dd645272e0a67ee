[package]
name = "bigtools"
version = "0.1.0"
edition = "2021"
publish = false

[dependencies]
byteorder = "1"
flate2 = "1"
libdeflater = "1"
clap = "2"
futures = { version = "0.3", features = ["thread-pool"] }
thiserror = "1"
