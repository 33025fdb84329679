[package]
name = "kvs"
version = "0.1.0"
edition = "2021"
publish = false

[dependencies]
serde_json = "1"
structopt = "0.3"
clap = "2.33"
