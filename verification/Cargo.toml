[package]
name = "chromelight"
version = "0.1.0"
edition = "2021"
publish = false

[dependencies]
encoding_rs = "*"
html5ever = "*"
markup5ever = "*"
postcard = { version = "*", features = ["alloc"] }
serde = { version = "*", features = ["derive"] }
thiserror = "*"
anyhow = "*"
clap = { version = "*", features = ["derive"] }
