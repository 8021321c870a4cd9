[package]
name = "tunes"
version = "0.1.0"
edition = "2021"
publish = false

[dependencies]
anyhow = "=1.0.104"
hound = "=3.5.1"
inventory = "=0.3.25"
midly = "0.5"
notify = "=8.2.1"
rand = "=0.9.5"
