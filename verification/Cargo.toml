[package]
name = "stardict"
version = "0.3.0"
edition = "2021"
publish = false

[dependencies]
byteorder = "1"
flate2 = "1"
inflate = "0.4"
process_alive = "*"
serde = { version = "1", features = ["derive"] }
serde_json = "1"
thiserror = "1"
dirs = "*"
sled = "0.34"
rusqlite = "*"
