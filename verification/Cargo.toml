[package]
name = "rsjsonnet-lang"
version = "0.1.0"
edition = "2021"
publish = false

[dependencies]
md-5 = "0.10"
sha1 = "0.10"
sha2 = "0.10"
sha3 = "0.10"
toml = "0.8"
saphyr-parser = "*"
