[package]
name = "clash_prism_core"
version = "0.1.0"
edition = "2021"
publish = false

[dependencies]
chrono = "=0.4.45"
indexmap = "=2.14.2"
libc = "=0.2.191"
regex = "=1.13.1"
serde = { version = "=1.0.229", features = ["derive"] }
serde_json = { version = "=1.0.154", features = ["unbounded_depth"] }
serde_yml = "=0.0.12"
sha2 = "=0.10.9"
tracing = "=0.1.44"
unicode-normalization = "=0.1.26"
ureq = { version = "=2.12.1", default-features = false }
uuid = { version = "=1.29.0", features = ["v4"] }
