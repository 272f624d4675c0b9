[package]
name = "ember_bdi"
version = "0.1.0"
edition = "2021"
publish = false

[dependencies]
bstr = { version = "1", default-features = false, features = ["alloc"] }
log = "0.4"
