[package]
name = "kardz"
version = "0.1.0"
edition = "2021"

[dependencies]
ariadne = "0.3"
console = "0.15"
