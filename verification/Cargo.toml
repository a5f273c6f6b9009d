[package]
name = "minichain"
version = "0.1.0"
edition = "2021"
publish = false

[dependencies]
ring = "*"
sled = "*"
bincode = "1"
serde = { version = "*", features = ["derive"] }
serde_json = "*"
hex = "*"
clap = "*"
tiny_http = "*"
url = "*"
crossbeam = "*"
ctrlc = "*"
log = "*"
stderrlog = "*"
rpassword = "*"
smol = "*"
reqwest = { version = "*", default-features = false, features = ["blocking"] }
