[package]
name = "rigid4d"
version = "0.1.0"
edition = "2021"
publish = false

[dependencies]
lru = "0.7"
smallvec = "1"
slotmap = "0.4"
cgmath = "0.17"
mint = "0.5"
rand = "0.7"
hsl = "0.1"
