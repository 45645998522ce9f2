[package]
name = "supervisor"
version = "0.1.0"
edition = "2021"
publish = false

[dependencies]
async-trait = "*"
chrono = "*"
libc = "*"
nix = { version = "*", features = ["fs", "process", "signal"] }
rustyline = "*"
serde = { version = "*", features = ["derive"] }
serde_yaml = "*"
tokio = { version = "*", features = ["macros", "rt-multi-thread", "sync", "time"] }
tracing = "*"
tracing-appender = "*"
tracing-subscriber = "*"
