[package]
name = "include_fs"
version = "0.1.0"
edition = "2021"
publish = false

[dependencies]
proc-macro2 = "1"
quote = "1"
syn = "2"
thiserror = "*"
walkdir = "2"
