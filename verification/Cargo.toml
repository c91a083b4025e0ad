[package]
name = "agent_sim"
version = "0.1.0"
edition = "2021"
publish = false

[dependencies]
globset = "*"
can-dbc = "*"
serde = { version = "*", features = ["derive"] }
serde_json = "*"
toml = "*"
uuid = { version = "*", features = ["v4", "serde"] }
clap = { version = "*", features = ["derive", "env"] }
tokio = { version = "*", features = ["full"] }
thiserror = "*"
dirs = "*"
interprocess = { version = "*", features = ["tokio"] }
libc = "*"
libloading = "*"
memmap2 = "*"
tracing = "*"
tracing-subscriber = { version = "*", features = ["env-filter"] }
comfy-table = "*"
