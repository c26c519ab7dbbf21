[package]
name = "dccmd-rs"
version = "0.1.0"
edition = "2021"
publish = false

[dependencies]
async-recursion = "=1.2.0"
clap = { version = "=4.6.7", features = ["derive"] }
console = "=0.15.11"
csv = "=1.4.0"
dco3 = "0.12"
indicatif = "=0.17.11"
itertools = "=0.13.0"
regex = "=1.13.1"
serde = { version = "=1.0.229", features = ["derive"] }
serde_json = "=1.0.154"
tera = "=1.20.1"
thiserror = "=1.0.69"
tokio = { version = "=1.54.1", features = ["sync", "rt", "rt-multi-thread", "time", "macros"] }
tracing = "=0.1.44"
