[package]
name = "dope_quic"
version = "0.1.0"
edition = "2021"
publish = false

[dependencies]
dope = "=0.15.1"
o3 = "=0.16.3"
pin-project = "=1.1.13"
ring = "=0.17.14"
shin = "=0.17.0"
subtle = "=2.6.1"
