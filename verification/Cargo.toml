[package]
name = "bfv"
version = "0.1.0"
edition = "2021"
publish = false

[dependencies]
rand = "0.8"
rand_chacha = "0.3"
rand_distr = "0.4"
chacha20poly1305 = "0.10"
itybity = "0.2"
num-traits = "0.2"
once_cell = "1"
serde = { version = "1", features = ["derive"] }
thiserror = "1"
