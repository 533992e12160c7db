[package]
name = "tquic"
version = "0.1.0"
edition = "2021"
publish = false

[dependencies]
clap = { version = "4", features = ["derive"] }
env_logger = "0.10"
get_if_addrs = "0.5"
libc = "0.2"
log = "0.4"
mio = { version = "0.8", features = ["net", "os-poll"] }
rustc-hash = "1.1"
slab = "0.4"
