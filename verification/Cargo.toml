[package]
name = "relay_ssh"
version = "0.1.0"
edition = "2021"
publish = false

[dependencies]
base64 = "0.22"
directories = "*"
serde = { version = "1", features = ["derive"] }
serde_json = "1"
ssh2 = "0.9"
tempfile = "3"
zeroize = "1"
