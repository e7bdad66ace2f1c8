[package]
name = "monitoring_rs"
version = "0.1.0"
edition = "2021"
publish = false

[dependencies]
md5 = "=0.7.0"
serde = { version = "=1.0.229", features = ["derive"] }
serde_json = "=1.0.154"
log = "=0.4.34"
env_logger = "=0.11.11"
structopt = "=0.3.26"
clap = "=2.34.0"
inotify = "=0.11.5"
async-std = { version = "=1.13.2", features = ["attributes"] }
tide = "=0.16.0"
blocking = "=1.7.0"
tokio = { version = "=1.54.1", features = ["rt", "net", "time"] }
kube = "=3.1.0"
k8s-openapi = { version = "0.27", features = ["latest"] }
smol = "=2.0.2"
sanakirja = "=1.4.3"

[dev-dependencies]
tempfile = "=3.27.0"
