[package]
name = "hermes_monitor"
version = "0.1.0"
edition = "2021"
publish = false

[dependencies]
async-trait = "0.1.92"
chrono = "0.4.45"
env_logger = "0.11.11"
influxdb2 = "0.5.2"
log = "0.4.35"
once_cell = "1.21.4"
reqwest = { version = "0.12.28", features = ["json"] }
serde = { version = "1.0.229", features = ["derive"] }
serde_json = "1.0.154"
thiserror = "2.0.21"
tokio = { version = "1.54.1", features = ["sync", "time", "macros", "rt-multi-thread"] }
yew = "0.21.0"
