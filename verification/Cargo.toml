[package]
name = "wecom"
version = "0.1.0"
edition = "2021"
publish = false

[dependencies]
anstyle = "1"
base64 = "0.22"
clap = { version = "4", features = ["derive", "string"] }
dirs = "*"
futures = "0.3"
indexmap = { version = "2", features = ["serde"] }
reqwest = { version = "0.12", default-features = false, features = ["json", "multipart", "stream"] }
serde = { version = "1", features = ["derive"] }
serde_json = { version = "1", features = ["preserve_order"] }
strsim = "0.11"
tempfile = "3"
thiserror = "2"
tokio = { version = "1", features = ["full"] }
tokio-util = { version = "0.7", features = ["io", "compat"] }
tracing = "0.1"
