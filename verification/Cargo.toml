[package]
name = "sitegen"
version = "0.1.0"
edition = "2021"
publish = false

[dependencies]
mustache = "*"
serde_json = "*"
sha1 = "*"
rustc-serialize = "*"
tiny_http = "*"
notify = "*"
clap = { version = "*", features = ["derive"] }
dialoguer = "*"
glob = "*"
