[package]
name = "rucrack"
version = "0.1.0"
edition = "2021"
publish = false

[dependencies]
hyper = "0.10"
iron = "0.6"
params = "0.8"
bodyparser = "0.8"
rustc-serialize = "0.3"
crossbeam = "0.3"
time = "0.1"
rand = "0.3"
rust-crypto = "0.2"
