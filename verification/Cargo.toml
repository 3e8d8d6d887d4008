[package]
name = "imbl_hamt"
version = "0.1.0"
edition = "2021"
publish = false

[dependencies]
archery = "1"
bitmaps = "3"
imbl-sized-chunks = "0.1"
