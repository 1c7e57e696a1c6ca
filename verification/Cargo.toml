[package]
name = "audion"
version = "0.1.0"
edition = "2021"
publish = false

[dependencies]
byteorder = "=1.5.0"
regex = "=1.13.1"
clap = { version = "=4.6.7", features = ["derive"] }
sha2 = "=0.10.9"
md-5 = "=0.10.6"
digest = "=0.10.7"
midly = "=0.5.3"
chrono = "0.4"
