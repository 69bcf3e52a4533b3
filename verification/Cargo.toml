[package]
name = "rig"
version = "0.10.0"
edition = "2021"
publish = false

[dependencies]
anyhow = "1"
clap = { version = "4", features = ["derive"] }
clap_complete = "4"
flate2 = "1"
libc = "0.2"
serde = { version = "1", features = ["derive"] }
serde_json = "1"
sha2 = "*"
tar = "0.4"
time = { version = "0.3", features = ["serde-well-known"] }
toml = "*"
ureq = "3"
zip = { version = "*", default-features = false, features = ["deflate"] }
