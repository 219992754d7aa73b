[package]
name = "channel_bank"
version = "0.1.0"
edition = "2021"
publish = false

[dependencies]
hashbrown = "0.14"
async-trait = "0.1"
