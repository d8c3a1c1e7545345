[package]
name = "ferroqueue"
version = "0.1.0"
edition = "2021"
publish = false

[dependencies]
bincode-next = "*"
chrono = "0.4"
crc32fast = "1"
prost = "0.14"
prost-types = "0.14"
rand = "0.9"
tokio = { version = "1", features = ["full"] }
tonic = "0.14"
tonic-prost = "0.14"
uuid = { version = "1", features = ["v4", "v5"] }
