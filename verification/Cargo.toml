[package]
name = "fastforward"
version = "0.1.0"
edition = "2021"
publish = false

[dependencies]
http = "*"
nom = { version = "5", default-features = false, features = ["std"] }
twoway = "*"
num_cpus = "*"
rayon = "*"

[dev-dependencies]
hyper = { version = "*", default-features = false }
