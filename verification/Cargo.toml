[package]
name = "cycle_profiler"
version = "0.1.0"
edition = "2021"
publish = false

[dependencies]
clap = { version = "*", features = ["derive"] }
libc = "*"
rand = "*"
serde = { version = "*", features = ["derive"] }
serde_json = "*"
