[package]
name = "mlrust"
version = "0.1.0"
edition = "2021"
publish = false

[dependencies]
byteorder = "1"
flate2 = "1"
ndarray = "0.15"
rand = "0.8"
rand_distr = "0.4"
serde = { version = "1", features = ["derive"] }
bincode = "1"
clap = { version = "4", features = ["derive"] }
indicatif = "0.17"
smallvec = "1"
reqwest = { version = "0.11", default-features = false, features = ["blocking"] }
