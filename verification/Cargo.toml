[package]
name = "flapjack"
version = "0.1.0"
edition = "2021"
publish = false

[dependencies]
dirs = "=7.0.0"
prettytable-rs = "=0.10.0"
self_update = { version = "=0.42.0", default-features = false, features = ["rustls"] }
thiserror = "=2.0.21"

[dev-dependencies]
regex = "=1.13.1"
