[package]
name = "truskawka_lib"
version = "0.1.0"
edition = "2021"
publish = false

[dependencies]
ascii = "1"
bytes = "1"
futures = "0.3"
log = "0.4"
thiserror = "1"
tokio-util = { version = "0.7", features = ["codec"] }
