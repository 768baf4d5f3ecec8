[package]
name = "weightlog"
version = "0.1.0"
edition = "2021"
publish = false

[dependencies]
chrono = "0.4"
clap = "2"
colored = "*"
dirs = "*"
prettytable-rs = "*"
