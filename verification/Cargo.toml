[package]
name = "rokv"
version = "0.1.0"
edition = "2021"

[dependencies]
anyhow = "1"
byteorder = "1"
clap = { version = "4", features = ["derive"] }
farmhash = "1.1.5"
memmap = "0.7"
rand = { version = "0.8", features = ["small_rng"] }
