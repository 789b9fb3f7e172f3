[package]
name = "vpncloud"
version = "0.1.0"
edition = "2021"
publish = false

[dependencies]
rand = "0.8"
net2 = "0.2"
signal = "0.7"
parking_lot = "0.12"
