[package]
name = "workload_audit"
version = "0.1.0"
edition = "2021"
publish = false

[dependencies]
rayon = "*"
anyhow = "*"
clap = { version = "*", features = ["derive"] }
csv = "*"
env_logger = "*"
k8s-openapi = { version = "*", features = ["latest"] }
kube = "*"
log = "*"
serde = { version = "*", features = ["derive"] }
tabled = "*"
tokio = { version = "*", features = ["macros", "rt-multi-thread", "sync"] }
