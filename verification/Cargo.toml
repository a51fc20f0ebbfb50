[package]
name = "datadog_sidekiq"
version = "0.1.0"
edition = "2021"
publish = false

[dependencies]
time = "*"
redis = "*"
curl = "*"
log = "*"
env_logger = "*"

[dev-dependencies]
serde_json = "*"
