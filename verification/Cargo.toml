[package]
name = "kz"
version = "0.1.0"
edition = "2021"
publish = false

[dependencies]
atty = "*"
chardetng = "*"
clap = { version = "*", features = ["derive"] }
clap_complete = "*"
encoding_rs = "*"
globset = "*"
memchr = "*"
memmap2 = "*"
mimalloc = "*"
rayon = "*"
serde = { version = "*", features = ["derive"] }
serde_json = "*"
walkdir = "*"
