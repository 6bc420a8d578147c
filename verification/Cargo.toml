[package]
name = "oifs"
version = "0.1.0"
edition = "2021"
publish = false

[dependencies]
zstd = "=0.13.4"
chacha20poly1305 = "=0.10.1"
argon2 = "=0.5.3"
rand = "=0.8.8"
memmap2 = "=0.9.12"
nix = { version = "=0.30.1", features = ["fs"] }
libc = "=0.2.191"
clap = { version = "=4.6.7", features = ["derive"] }
chrono = "=0.4.45"
ctrlc = "=3.5.2"
serde = { version = "=1.0.229", features = ["derive"] }
serde_json = "=1.0.154"
rmcp = { version = "*", features = ["server", "transport-io", "macros"] }
tokio = { version = "1", features = ["macros", "rt-multi-thread", "sync", "io-std"] }
schemars = "*"
anyhow = "1"
