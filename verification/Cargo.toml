[package]
name = "nbtx"
version = "0.1.0"
edition = "2021"
publish = false

[dependencies]
byteorder = "*"
cesu8 = "*"
regex = "*"
flate2 = "*"
clap = { version = "*", features = ["derive"] }
sysinfo = "*"
