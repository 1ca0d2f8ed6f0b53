[package]
name = "fulcio"
version = "0.1.0"
edition = "2021"
publish = false

[dependencies]
base64 = "*"
pem = "*"
pkcs8 = { version = "*", features = ["pem"] }
serde = { version = "*", features = ["derive"] }
serde_repr = "*"
x509-cert = { version = "*", features = ["pem"] }
