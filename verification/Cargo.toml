[package]
name = "tcp_balancer"
version = "0.1.0"
edition = "2021"
publish = false

[dependencies]
mio = { version = "*", features = ["os-poll", "net"] }
ctrlc = "*"
