[package]
name = "wfs"
version = "0.1.0"
edition = "2021"
publish = false

[dependencies]
fuse_mt = "0.6"
libc = "0.2"
log = "0.4"
