[package]
name = "founder"
version = "0.1.0"
edition = "2021"
publish = false

[dependencies]
arguments = "*"
colored = "*"
folder = "*"
font = "*"
resvg = "*"
svg = "*"
walkdir = "*"
