[package]
name = "virus_alarm"
version = "0.1.0"
edition = "2021"
publish = false

[dependencies]
rand = "=0.8.8"
rand_pcg = "=0.3.1"
average = "=0.13.1"
ndarray = "=0.15.6"
serde = { version = "=1.0.229", features = ["derive"] }
