[package]
name = "hpvca"
version = "0.1.0"
edition = "2021"
publish = false

[dependencies]
hpvcd = "*"
image = { version = "*", default-features = false, features = ["png"] }
thiserror = "*"
