[package]
name = "swarm_core"
version = "0.1.0"
edition = "2021"
publish = false

[dependencies]
anyhow = "1"
bendy = { version = "0.3", features = ["serde"] }
bitvec = "1"
clap = { version = "4", features = ["derive"] }
crossbeam = "0.8"
env_logger = "0.10"
format-bytes = "*"
lazy_static = "1"
libc = "0.2"
log = "0.4"
rand = "0.8"
regex = "1"
serde = { version = "1", features = ["derive"] }
serde_bytes = "0.11"
sha1 = "0.10"
url = "2"
urlencoding = "2"
