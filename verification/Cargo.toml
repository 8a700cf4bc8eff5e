[package]
name = "rsnbs"
version = "0.1.0"
edition = "2021"
publish = false

[dependencies]
clap = { version = "=4.6.7", features = ["derive"] }
counter = "=0.7.1"
encoding_rs = "=0.8.44"
itertools = "=0.15.0"
mcdata = "=0.4.0"
rustmatica = "=0.5.2"
thiserror = "=2.0.21"
