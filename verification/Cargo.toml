[package]
name = "perf_sim"
version = "0.1.0"
edition = "2021"
publish = false

[dependencies]
clap = { version = "=4.6.7", features = ["cargo"] }
crossbeam-skiplist = "=0.1.3"
crossbeam-utils = "=0.8.23"
itertools = "=0.12.1"
rand = "=0.8.8"
speedb = "=0.0.5"
