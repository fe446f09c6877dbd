[package]
name = "droidsdk"
version = "0.1.0"
edition = "2021"
publish = false

[dependencies]
json = "0.12"
regex = "1"
log = "0.4"
fern = "*"
chrono = "0.4"
lazy_static = "1"
cfg-if = "1"
seahorse = "*"
dialoguer = "*"
reqwest = { version = "0.12", default-features = false, features = ["blocking", "rustls-tls"] }
flate2 = "1"
tar = "*"
zip = { version = "2", default-features = false, features = ["deflate"] }
signal-hook = "*"
size_format = "*"
winreg = "*"
