[package]
name = "call_stack"
version = "0.1.0"
edition = "2021"
publish = false

[dependencies]
rustc-demangle = "*"
petgraph = "*"
stack-sizes = "*"
ar = "*"
cargo-project = "*"
clap = "*"
env_logger = "*"
failure = "*"
filetime = "*"
log = "*"
walkdir = "*"
xmas-elf = "*"
rustc_version = "*"
