[package]
name = "minstrel"
version = "0.1.0"
edition = "2021"
publish = false

[dependencies]
arrayvec = "0.7"
anyhow = "1"
structopt = "0.3"
