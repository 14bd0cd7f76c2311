[package]
name = "steel"
version = "0.1.0"
edition = "2021"
publish = false

[dependencies]
glam = "=0.34.2"
log = "=0.4.35"
rand = "=0.10.3"
rustc-hash = "=2.1.3"
serde = { version = "=1.0.229", features = ["derive"] }
simdnbt = "=0.9.0"
text_components = "=0.1.6"
thiserror = "=2.0.21"
tokio = { version = "=1.54.1", features = ["rt", "rt-multi-thread", "fs"] }
tracing = "=0.1.44"
uuid = "=1.29.0"
wincode = { version = "=0.6.3", features = ["derive"] }
