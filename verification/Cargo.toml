[package]
name = "xf_framed"
version = "0.1.0"
edition = "2021"
publish = false

[dependencies]
crossbeam-channel = "=0.5.17"
integer-encoding = "=3.0.4"
log = "0.4"
mio = { version = "=0.8.11", features = ["os-poll", "net"] }
socket2 = { version = "=0.5.10", features = ["all"] }
