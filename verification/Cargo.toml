[package]
name = "stream_merge"
version = "0.1.0"
edition = "2021"
publish = false

[dependencies]
anyhow = "=1.0.104"
async-channel = "=1.9.0"
async-compat = "=0.1.4"
async-compression = { version = "=0.3.15", features = ["futures-io", "gzip", "zstd"] }
bytes = "=0.5.6"
futures = "=0.3.34"
hex-literal = "=0.3.4"
jemallocator = "=0.3.2"
nom = "6"
pcap-parser = "=0.11.1"
pin-project = "=1.1.13"
pin-project-lite = "=0.2.17"
rusoto_core = "=0.45.0"
rusoto_s3 = "=0.45.0"
smol = "=1.3.0"
structopt = "=0.3.26"
tracing = "=0.1.44"
tracing-subscriber = { version = "=0.3.23", features = ["env-filter"] }
