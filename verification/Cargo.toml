[package]
name = "sandooo"
version = "0.1.0"
edition = "2021"
publish = false

[dependencies]
anyhow = "*"
bounded-vec-deque = "*"
csv = "*"
ethers-core = "2"
ethers-providers = { version = "2", default-features = false, features = ["ws", "rustls"] }
ethers-signers = { version = "2", default-features = false }
futures = "*"
rand = "0.8"
revm = "3"
serde = { version = "1", features = ["derive"] }
tokio = { version = "1", features = ["macros", "rt-multi-thread", "sync", "time"] }
url = "*"
