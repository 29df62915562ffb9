[package]
name = "customizable_buddy"
version = "0.1.0"
edition = "2021"

[dependencies]
bitvec = { version = "1", default-features = false }
