[package]
name = "byssus"
version = "0.1.0"
edition = "2021"
publish = false

[dependencies]
anyhow = "1"
clap = { version = "4", features = ["derive"] }
jiff = "0.2"
libc = "0.2"
rustix = { version = "1", features = ["fs", "mount", "process", "thread", "event", "time"] }
serde = { version = "1", features = ["derive"] }
serde_json = { version = "1", features = ["preserve_order"] }
thiserror = "2"
toml = "*"
tracing = "0.1"
tracing-subscriber = "0.3"
