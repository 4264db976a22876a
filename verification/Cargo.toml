[package]
name = "leafline"
version = "0.1.0"
edition = "2021"
publish = false

[dependencies]
ansi_term = "0.12"
argparse = "0.2"
fnv = "1"
libc = "0.2"
log = "0.4"
lru-cache = "0.1"
parking_lot = "0.12"
serde = { version = "1", features = ["derive"] }
serde_json = "1"
time = "0.1"
twox-hash = "1"
