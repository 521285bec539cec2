[package]
name = "color_map"
version = "0.1.0"
edition = "2021"
publish = false

[dependencies]
rand = "0.7"
image = "0.24"
clap = "2"
termcolor = "1"
