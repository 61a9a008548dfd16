[package]
name = "sparopt"
version = "0.1.0"
edition = "2021"
publish = false

[dependencies]
oxrdf = "*"
spargebra = { version = "*", features = ["sep-0006", "sparql-12"] }
