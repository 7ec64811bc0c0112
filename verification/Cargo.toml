[package]
name = "shardworld"
version = "0.1.0"
edition = "2021"
publish = false

[dependencies]
axum = "=0.8.9"
bevy = { version = "=0.18.1", default-features = false, features = ["std", "keyboard"] }
deadpool-redis = "=0.22.1"
dotenvy = "=0.15.7"
quinn = { version = "=0.11.12", default-features = false, features = ["rustls-ring", "runtime-tokio"] }
rand = "=0.9.5"
rcgen = { version = "=0.14.10", default-features = false, features = ["crypto", "pem", "ring"] }
redis = { version = "=0.32.7", features = ["tokio-comp"] }
reqwest = { version = "=0.12.28", default-features = false, features = ["blocking", "json"] }
rustls = { version = "=0.23.46", default-features = false, features = ["ring", "std"] }
serde = { version = "=1.0.229", features = ["derive"] }
serde_json = "=1.0.154"
sysinfo = "=0.37.2"
tokio = { version = "=1.54.1", features = ["full"] }
tracing = "=0.1.44"
tracing-subscriber = { version = "=0.3.23", features = ["env-filter"] }
uuid = { version = "=1.29.0", features = ["v4"] }
