[package]
name = "token_discovery"
version = "0.1.0"
edition = "2021"
publish = false

[dependencies]
libafl = "*"
libafl_bolts = "*"
libsais = "*"
libc = "*"
serde = { version = "*", features = ["derive"] }
serde_json = "*"
