[package]
name = "corodaw"
version = "0.1.0"
edition = "2021"
publish = false

[dependencies]
fixedbitset = "0.5"
uuid = { version = "1", features = ["v4"] }
base64 = "0.22"
wmidi = "4"
serde = { version = "1", features = ["derive"] }
serde_json = "1"
dirs = "6"
walkdir = "2"
