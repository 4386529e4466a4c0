[package]
name = "hash_hack_dbms"
version = "0.1.0"
edition = "2021"
publish = false

[dependencies]
crc32fast = "=1.5.3"
m6coll = "=0.2.0"
regex = "=1.13.1"
sorted-vec = "=0.8.11"
clap = { version = "=3.2.25", features = ["derive"] }
clap_complete = "=3.2.5"
console = "0.16"
indicatif = "=0.16.2"
shellexpand = "=2.1.2"
serde = { version = "1", features = ["derive"] }
serde_derive = "1"
tokio = { version = "1", features = ["macros", "rt-multi-thread"] }
tracing = "0.1"
tracing-subscriber = "0.3"
warp = "=0.3.7"
