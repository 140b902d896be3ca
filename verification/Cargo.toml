[package]
name = "termfilechooser"
version = "0.1.0"
edition = "2021"
publish = false

[dependencies]
async-channel = "2"
clap = { version = "4", features = ["derive"] }
dirs = "6"
rustix = { version = "1", features = ["process"] }
serde = { version = "1", features = ["derive"] }
shlex = "1"
tempfile = "3"
toml = "0.9"
tracing = "0.1"
tracing-subscriber = { version = "0.3", features = ["env-filter", "fmt"] }
zbus = "5"

[dev-dependencies]
tempfile = "3"
