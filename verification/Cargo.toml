[package]
name = "kubefuzz"
version = "0.1.0"
edition = "2021"
publish = false

[dependencies]
regex = "1"
rand = "0.8"
rand_xorshift = "0.3"
rand_regex = "0.15"
chrono = "0.4"
twox-hash = "1.6"
serde = { version = "1", features = ["derive"] }
serde_json = "1"
serde_yaml = "0.9"
serde-transcode = "1"
clap = { version = "4", features = ["derive"] }
kube = { version = "0.93", default-features = false, features = ["client"] }
k8s-openapi = { version = "0.22", features = ["v1_30"] }
tokio = { version = "1", features = ["macros", "rt-multi-thread"] }
crossterm = "0.25"
tui = "0.19"
pretty_env_logger = "0.5"
log = "0.4"
