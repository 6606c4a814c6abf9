[package]
name = "kitchensync"
version = "0.1.0"
edition = "2021"
publish = false

[dependencies]
url = "2"
sha1 = "0.10"
anyhow = "1"
async-trait = "0.1"
aws-config = "1"
aws-sdk-s3 = "1"
aws-sdk-s3-transfer-manager = "*"
clap = "4"
clout = "*"
colored = "2"
env_logger = "0.11"
futures = "0.3"
indicatif = "0.17"
log = "0.4"
rayon = "1"
serde = { version = "1", features = ["derive"] }
tokio = { version = "1", features = ["full"] }
toml = "0.8"
tracing-subscriber = { version = "0.3", features = ["env-filter", "fmt"] }
utime = "0.3"
walkdir = "2"
