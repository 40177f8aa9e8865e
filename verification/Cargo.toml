[package]
name = "global_state_sync"
version = "0.1.0"
edition = "2021"
publish = false

[dependencies]
casper-hashing = "*"
