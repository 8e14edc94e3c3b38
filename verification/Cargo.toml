[package]
name = "tonbo"
version = "0.1.0"
edition = "2021"
publish = false

[dependencies]
arrow = { version = "=55.2.0", default-features = false }
parquet = { version = "=55.2.0", default-features = false }
fusio = { version = "=0.4.3" }
fusio-log = { version = "=0.4.1" }
tonic = { version = "=0.14.6", default-features = false }
async-stream = "=0.3.6"
futures-core = "=0.3.34"
futures-util = "=0.3.34"
