[package]
name = "qasmsim"
version = "0.1.0"
edition = "2021"
publish = false

[dependencies]
cached = { version = "=0.51.4", default-features = false }
num = "=0.4.3"
float-cmp = "=0.9.0"
rand = "=0.8.8"
prettytable-rs = "=0.10.0"
serde_json = "=1.0.154"
structopt = "=0.3.26"
