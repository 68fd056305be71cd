[package]
name = "elan_dist"
version = "0.1.0"
edition = "2021"
publish = false

[dependencies]
flate2 = "1"
regex = "1"

[dev-dependencies]
tar = "0.4"
zip = { version = "*", default-features = false, features = ["deflate"] }
