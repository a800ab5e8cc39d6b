[package]
name = "concache"
version = "0.2.1"
edition = "2021"

[dependencies]
clap = "2"
crossbeam = "0.3"
rand = "0.7"
zipf = "6"
