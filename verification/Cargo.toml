[package]
name = "senklot"
version = "0.1.0"
edition = "2021"
publish = false

[dependencies]
anyhow = "*"
chrono = "*"
crossbeam = "*"
ctrlc = "*"
notify = "*"
structopt = "*"
toml = "*"
