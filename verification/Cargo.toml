[package]
name = "hashgoblin"
version = "1.0.0"
edition = "2021"
publish = false

[dependencies]
digest = { version = "=0.10.7", features = ["alloc"] }
hex = "=0.4.3"
jiff = "=0.2.38"
md-5 = "=0.10.6"
sha1 = "=0.10.7"
sha2 = "=0.10.9"
tiger = "=0.2.1"
whirlpool = "=0.10.4"
gumdrop = "=0.8.1"
