[package]
name = "cs431"
version = "0.1.0"
edition = "2021"
publish = false

[dependencies]
rand = "0.9"
crossbeam-channel = "0.5"
crossbeam-epoch = "0.9"
crossbeam-utils = "0.8"
ctrlc = "3"
cfg-if = "1"
