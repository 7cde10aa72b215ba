[package]
name = "scumm_extract"
version = "0.1.0"
edition = "2021"
publish = false

[dependencies]
byteordered = "0.6"
clap = { version = "4", features = ["derive"] }
tracing = "0.1"
