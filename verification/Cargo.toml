[package]
name = "bitturbulence"
version = "0.1.0"
edition = "2021"
publish = false

[dependencies]
anyhow = "1"
bytes = "1"
futures-util = { version = "0.3", default-features = false, features = ["std", "sink"] }
hex = "0.4"
quinn = { version = "0.11", default-features = false, features = ["runtime-tokio", "rustls-ring"] }
rcgen = { version = "0.13", default-features = false, features = ["crypto", "ring"] }
rustls = { version = "0.23", default-features = false, features = ["ring", "std", "logging", "tls12"] }
sha2 = "0.10"
tokio = { version = "1", features = ["macros", "rt-multi-thread", "sync", "time", "net"] }
tracing = "0.1"
