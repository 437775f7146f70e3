[package]
name = "arena-alligator"
version = "0.6.1"
edition = "2021"
publish = false

[dependencies]
bytes = "1"
zeroize = "1"
libc = "0.2"
tokio = { version = "1", features = ["sync", "rt", "macros", "time"] }
