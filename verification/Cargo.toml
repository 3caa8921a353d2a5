[package]
name = "lfu_light"
version = "0.1.0"
edition = "2021"

[dependencies]
hashbrown = "0.16"
