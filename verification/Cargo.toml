[package]
name = "hoshi2star"
version = "0.4.2"
edition = "2021"
publish = false

[dependencies]
encoding_rs = "=0.8.44"
hex = "0.4"
lz4_flex = "=0.14.0"
marshal-rs = "*"
regex = "=1.13.1"
serde_json = "=1.0.154"
sha2 = "0.10"
wolfrpg-map-parser = "=0.6.0"
