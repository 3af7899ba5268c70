[package]
name = "witness"
version = "0.1.0"
edition = "2021"
publish = false

[dependencies]
alloy-eips = { version = "=2.5.0", default-features = false, features = ["std"] }
alloy-primitives = { version = "=1.7.3", default-features = false, features = ["std"] }
blake3 = "=1.8.7"
reth-primitives-traits = { version = "=0.8.2", default-features = false }
revm = { version = "=43.0.3", default-features = false, features = ["std"] }
thiserror = "=2.0.21"
tracing = { version = "=0.1.44", default-features = false }
zstd = "=0.13.4"

[dev-dependencies]
alloy-consensus = { version = "=2.5.0", default-features = false, features = ["std"] }
