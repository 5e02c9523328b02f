[package]
name = "pcap_analysis"
version = "0.1.0"
edition = "2021"
publish = false

[dependencies]
anyhow = "*"
clap = { version = "*", features = ["derive"] }
csv = "*"
pcap-parser = "*"
pnet = "*"
serde = { version = "*", features = ["derive"] }
