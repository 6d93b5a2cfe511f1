[package]
name = "smalltools"
version = "0.1.0"
edition = "2021"
publish = false

[dependencies]
chrono = "=0.4.45"
data-encoding = "=2.11.1"
cshake = "=0.1.1"
csv = "=1.4.0"
serde = { version = "=1.0.229", features = ["derive"] }
serde_json = "=1.0.154"
ureq = "=2.12.1"
deepsize = "=0.2.0"
