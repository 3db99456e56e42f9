[package]
name = "tabnas-jsonic-cli"
version = "0.5.7"
edition = "2021"
publish = false

[dependencies]
tabnas-parser = "=0.12.15"
tabnas-jsonic = "=0.7.10"
tabnas-debug = "=0.3.13"
tabnas-json = "=0.5.19"
serde_json = { version = "=1.0.154", features = ["preserve_order"] }
indexmap = "=2.14.2"
