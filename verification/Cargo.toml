[package]
name = "nebari"
version = "0.5.0"
edition = "2021"
publish = false

[dependencies]
flume = "0.10"
num_cpus = "1"
once_cell = "1"
parking_lot = "0.12"
thiserror = "1"
