[package]
name = "fermats_kitchen"
version = "0.1.0"
edition = "2021"
publish = false

[dependencies]
fixedbitset = "=0.5.7"
num-bigint = "=0.5.1"
argh = "=0.1.19"
