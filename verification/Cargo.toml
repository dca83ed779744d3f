[package]
name = "dcc_tiler"
version = "0.1.0"
edition = "2021"
publish = false

[dependencies]
num = "*"
rand = "*"
rayon = "*"
serde = "*"
serde_derive = "*"
serde_json = "*"
simplesvg = "*"
zip = "*"
clap = { version = "*", features = ["derive"] }
