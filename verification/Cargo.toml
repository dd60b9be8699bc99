[package]
name = "directory_scanner"
version = "0.1.0"
edition = "2021"
publish = false

[dependencies]
crossbeam = "0.3"
gitignore = "1"
log = "0.4"
time = "0.1"
