[package]
name = "uksmd"
version = "0.1.0"
edition = "2021"
publish = false

[dependencies]
anyhow = "1"
async-trait = "0.1"
log = "0.4"
log4rs = "1"
page_size = "*"
protobuf = "3"
regex = "1"
structopt = "0.3"
tokio = { version = "1", features = ["full"] }
ttrpc = { version = "0.8", features = ["async"] }
