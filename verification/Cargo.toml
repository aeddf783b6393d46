[package]
name = "dungeondraft_pack"
version = "0.1.0"
edition = "2021"
publish = false

[dependencies]
anyhow = "1"
clap = "4"
glob = "0.3"
log = "0.4"
simplelog = "0.12"

[dev-dependencies]
byteorder = "1"
