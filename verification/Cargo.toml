[package]
name = "chalkydri"
version = "0.1.0"
edition = "2021"
publish = false

[dependencies]
statrs = "=0.18.0"
serde = { version = "=1.0.229", features = ["derive"] }
serde_json = "=1.0.154"
image = { version = "=0.25.10", default-features = false, features = ["png"] }
ril = { version = "=0.10.3", default-features = false, features = ["png"] }
turbojpeg = "*"
rustix = { version = "*", features = ["system"] }
sysinfo = "*"
toml = "*"
