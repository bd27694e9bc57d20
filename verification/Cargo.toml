[package]
name = "r18"
version = "0.1.0"
edition = "2021"
publish = false

[dependencies]
oxilangtag = "*"
serde_json = "*"
syn = { version = "*", features = ["full"] }
proc-macro2 = { version = "*", features = ["span-locations"] }
clap = { version = "*", features = ["derive"] }
walkdir = "*"
sys-locale = "*"
