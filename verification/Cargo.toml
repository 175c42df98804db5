[package]
name = "chain_reaction"
version = "0.1.0"
edition = "2021"
publish = false

[dependencies]
num-complex = "0.4"
sdl2 = { version = "0.35", features = ["gfx", "ttf"] }
