[package]
name = "control_daemon"
version = "0.1.0"
edition = "2021"
publish = false

[dependencies]
anyhow = "=1.0.104"
async-trait = "=0.1.92"
dotenvy = "=0.15.7"
rcon = { version = "=0.6.0", features = ["rt-tokio"] }
tokio = { version = "=1.54.1", features = ["rt-multi-thread", "net", "time", "signal", "sync", "macros"] }
