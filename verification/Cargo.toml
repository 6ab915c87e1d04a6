[package]
name = "gpgsync"
version = "0.1.0"
edition = "2021"
publish = false

[dependencies]
anyhow = "1"
async-std = "1"
crossbeam-channel = "0.5"
gpgme = "0.11"
md-5 = "0.10"
notify = "6"
notify-rust = "4"
serde = { version = "1", features = ["derive"] }
serde_json = "1"
sha1 = "0.10"
structopt = "0.3"
