[package]
name = "bebasin"
version = "0.1.0"
edition = "2021"
publish = false

[dependencies]
curl = "=0.4.51"
cursive = "=0.21.1"
itertools = "=0.10.5"
md5 = "=0.7.0"
nix = { version = "=0.29.0", features = ["fs"] }
serde = { version = "=1.0.229", features = ["derive"] }
serde_json = "=1.0.154"
webbrowser = "=0.5.5"
zip = { version = "=0.6.6", default-features = false, features = ["deflate"] }
