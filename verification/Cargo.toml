[package]
name = "pmem_core"
version = "0.1.0"
edition = "2021"
publish = false

[dependencies]
corundum = "*"
log = "*"
spin = "*"
x86_64 = "*"
