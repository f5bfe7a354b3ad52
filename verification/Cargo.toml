[package]
name = "bytecode_filter"
version = "0.1.0"
edition = "2021"
publish = false

[dependencies]
bytes = "1"
memchr = "2"
regex = "1"
thiserror = "2"
