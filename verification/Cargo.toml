[package]
name = "yaks"
version = "0.1.0"
edition = "2021"
publish = false

[dependencies]
crossbeam = "0.7"
crossbeam-channel = "0.4"
fixedbitset = "0.2"
fxhash = "0.2"
hecs = "0.2"
parking_lot = "0.10"
paste = "0.1"
rayon = "1"
resources = "1"
