[package]
name = "smllr"
version = "0.1.0"
edition = "2021"
publish = false

[dependencies]
md5 = "=0.8.1"
regex = "=1.13.1"
sha3 = "=0.12.0"
clap = { version = "=2.34.0", default-features = false }
env_logger = { version = "=0.11.11", default-features = false }
log = "=0.4.34"
