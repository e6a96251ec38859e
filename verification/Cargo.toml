[package]
name = "meanvar"
version = "0.1.0"
edition = "2021"
publish = false

[dependencies]
bytemuck = "1"
coe-rs = "0.1"
equator = "0.2"
num-complex = "0.4"
pulp = "0.18"
