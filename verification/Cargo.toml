[package]
name = "tab-memory-manager"
version = "0.1.0"
edition = "2021"
publish = false

[dependencies]
astra = "*"
debug_print = "*"
dirs = "*"
regex = "1"
serde = { version = "1", features = ["derive"] }
serde_json = "1"
sysinfo = "*"
thousands = "*"
toml = "*"
ws = "*"
