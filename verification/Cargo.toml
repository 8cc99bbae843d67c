[package]
name = "netservices"
version = "0.1.0"
edition = "2021"
publish = false

[dependencies]
amplify = "*"
cyphernet = "*"
io-reactor = { version = "*", features = ["popol"] }
log = "*"
