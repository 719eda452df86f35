[package]
name = "longboy"
version = "0.1.0"
edition = "2021"
publish = false

[dependencies]
rc5 = "=0.1.0"
cipher = "=0.5.2"
anyhow = "=1.0.104"
fnv = "=1.0.7"
flume = "=0.12.0"
thunderdome = "=0.6.1"
