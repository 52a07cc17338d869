[package]
name = "memento"
version = "0.1.0"
edition = "2021"
publish = false

[dependencies]
array-init = "2"
crossbeam-utils = "0.8"
libc = "0.2"
rand = "0.8"
structopt = "0.3"
