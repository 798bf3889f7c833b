[package]
name = "rpf2fivem"
version = "0.1.7"
edition = "2021"
publish = false

[dependencies]
anyhow = "1"
clap = { version = "4", features = ["derive"] }
colored = "2"
reqwest = { version = "0.12", default-features = false, features = ["blocking", "rustls-tls"] }
sevenz-rust = "0.6"
tempfile = "3"
zip = { version = "2", default-features = false, features = ["deflate"] }
