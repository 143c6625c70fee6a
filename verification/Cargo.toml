[package]
name = "io_utils"
version = "0.1.0"
edition = "2021"
publish = false

[dependencies]
async-std = "1"
crossbeam-utils = "0.8"
futures = "0.3"
