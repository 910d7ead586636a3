[package]
name = "calendar_puzzle"
version = "0.1.0"
edition = "2021"

[dependencies]
async-std = "1"
futures = "0.3"
