[package]
name = "bbolt"
version = "0.1.0"
edition = "2021"
publish = false

[dependencies]
clap = { version = "4", features = ["derive"] }
libc = "0.2"
memmap2 = "0.9"
parking_lot = "0.12"
thiserror = "1"
