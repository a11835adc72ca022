[package]
name = "kotoconn"
version = "0.1.0"
edition = "2021"
publish = false

[dependencies]
ahash = "=0.8.12"
anyhow = "=1.0.104"
bytes = "=1.12.1"
crossbeam-queue = "=0.3.14"
futures-util = "=0.3.34"
oxc = { version = "=0.143.0", features = ["codegen", "semantic", "transformer"] }
rand = "=0.10.3"
rustix = { version = "=1.1.6", features = ["net"] }
smoltcp = "=0.14.0"
thiserror = "=2.0.21"
tokio = { version = "=1.54.1", features = ["full"] }
tokio-util = "=0.7.20"
tracing = "=0.1.44"
tun-rs = { version = "=2.8.16", features = ["async"] }

[dev-dependencies]
rquickjs = { version = "=0.14.0", features = ["loader"] }
