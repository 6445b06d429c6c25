[package]
name = "urchinfs"
version = "0.1.0"
edition = "2021"
publish = false

[dependencies]
fuse = "0.3"
libc = "*"
time = "0.1"
argparse = "0.2"
