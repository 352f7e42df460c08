[package]
name = "notepada"
version = "0.1.0"
edition = "2021"
publish = false

[dependencies]
memchr = "2"
regex = "1"
chardetng = "0.1"
encoding_rs = "0.8"
serde = { version = "1", features = ["derive"] }
memmap2 = "0.9"
parking_lot = "0.12"
uuid = { version = "1", features = ["v4"] }
log = "0.4"
tauri = { version = "2", default-features = false }
