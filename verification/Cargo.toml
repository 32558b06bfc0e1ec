[package]
name = "unalz"
version = "0.1.0"
edition = "2021"
publish = false

[dependencies]
bzip2 = "*"
chrono = "*"
crc32fast = "*"
encoding_rs = "*"
flate2 = "*"
rpassword = "*"
