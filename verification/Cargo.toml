[package]
name = "mkstorm"
version = "0.1.0"
edition = "2021"
publish = false

[dependencies]
clap = { version = "4", features = ["derive"] }
thiserror = "1"
sel4-sys = "*"

[dev-dependencies]
nom = "7"
