[package]
name = "wt"
version = "0.1.0"
edition = "2021"
publish = false

[dependencies]
anyhow = "1"
clap = { version = "4", features = ["derive"] }
clap_complete = { version = "4", features = ["unstable-dynamic"] }
cliclack = "*"
console = "*"
fs4 = "*"
serde = { version = "1", features = ["derive"] }
serde_json = "1"
tempfile = "3"
