[package]
name = "numrs2"
version = "0.1.0"
edition = "2021"
publish = false

[dependencies]
byteorder = "=1.5.0"
serde = { version = "=1.0.229", features = ["derive"] }
serde_json = "=1.0.154"
csv = "=1.4.0"
bincode = "=1.3.3"
num-traits = "=0.2.19"
oxiarc-archive = "=0.4.2"
rand = "=0.9.5"
nalgebra = "0.33"
