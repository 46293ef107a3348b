[package]
name = "renderer"
version = "0.1.0"
edition = "2021"
publish = false

[dependencies]
glam = "*"
rayon = "*"
arrayvec = "*"
wide = "*"
bytemuck = "*"
bumpalo = { version = "*", features = ["collections"] }
smallvec = "*"
png = "*"
hecs = "*"
sdl3 = "*"
itertools = "*"
parking_lot = "*"
