[package]
name = "fsend"
version = "0.1.0"
edition = "2021"
publish = false

[dependencies]
anyhow = "=1.0.104"
bitcode = "=0.6.9"
clap = { version = "=4.6.7", features = ["derive"] }
crossfire = "=2.1.12"
cscall = "=0.1.1"
dashmap = "=6.2.1"
hex = "=0.4.3"
indicatif = "=0.18.6"
mimalloc = "=0.1.52"
mmap-io = { version = "=1.1.0", features = ["hugepages"] }
rand = "=0.8.8"
rpassword = "=7.5.4"
scopeguard = "=1.2.0"
socket2 = "=0.6.5"
tokio = { version = "=1.54.1", features = ["full"] }
tracing = "=0.1.44"
tracing-subscriber = "=0.3.23"
