[package]
name = "model_das"
version = "0.1.0"
edition = "2021"
publish = false

[dependencies]
anyhow = "1"
async-trait = "0.1"
byteorder = "=1.5.0"
chrono = "=0.4.45"
clap = { version = "=4.6.7", features = ["derive"] }
delay_map = "=0.1.2"
discv5 = "=0.1.0"
eth2_ssz = "=0.4.0"
eth2_ssz_derive = "=0.3.0"
eyre = "=0.6.14"
futures = "=0.3.34"
hex = "=0.4.3"
itertools = "=0.10.5"
nanoid = "=0.4.0"
parking_lot = "=0.12.5"
rand = "=0.8.8"
sha3 = "=0.10.9"
tokio = { version = "=1.54.1", features = ["full"] }
tokio-stream = "=0.1.19"
tracing = "=0.1.44"
