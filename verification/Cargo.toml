[package]
name = "huff"
version = "0.1.0"
edition = "2021"
publish = false

[dependencies]
anyhow = "1"
bitvec = "*"
clap = { version = "3", features = ["derive"] }
env_logger = "*"
leb128 = "*"
log = "0.4"
read_char = "*"
