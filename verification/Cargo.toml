[package]
name = "reduction_server"
version = "0.1.0"
edition = "2021"
publish = false

[dependencies]
aligned_box = "*"
clap = { version = "4", features = ["derive"] }
env_logger = "*"
half = { version = "2", features = ["num-traits", "std"] }
libc = "0.2"
log = "0.4"
num-traits = "0.2"
