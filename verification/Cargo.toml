[package]
name = "rb_mumble_protocol"
version = "0.1.0"
edition = "2021"
publish = false

[dependencies]
aes = "0.8"
bytes = "1"
magnus = "0.6"
rand = "0.8"
