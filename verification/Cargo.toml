[package]
name = "ski_machine"
version = "0.1.0"
edition = "2021"
publish = false

[dependencies]
bimap = "0.6"
hashbag = "0.1"
lazy_static = "1"
rand = "0.8"
regex = "1"
rustyline = { version = "*", features = ["derive"] }
rustyline-derive = "*"
