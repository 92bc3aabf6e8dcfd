[package]
name = "slipmesh"
version = "0.2.0"
edition = "2021"
publish = false

[dependencies]
anyhow = "1"
base64 = "0.22"
clap = { version = "4", features = ["derive"] }
futures = "0.3"
genetlink = "0.2.7"
http-body-util = "0.1"
hyper = { version = "1", features = ["server", "http1"] }
hyper-util = { version = "0.1", features = ["tokio"] }
netlink-packet-amnezia-wireguard = "0.1.2"
netlink-packet-core = "0.8"
netlink-packet-generic = "0.4"
prometheus-client = "0.25"
qrcode = { version = "0.14", default-features = false }
rand = "0.8"
reqwest = { version = "0.12", default-features = false, features = ["json", "rustls-tls"] }
rtnetlink = "0.20"
serde = { version = "1", features = ["derive"] }
serde_json = "1"
similar = "2"
socket2 = { version = "0.6", features = ["all"] }
tokio = { version = "1", features = ["full"] }
tracing = "0.1"
tracing-subscriber = { version = "0.3", features = ["env-filter"] }
tree-sitter = "*"
tree-sitter-iter = "=1.25.2"
tree-sitter-yaml = "*"
x25519-dalek = { version = "2", features = ["static_secrets"] }
yaml_serde = "*"
yamlpatch = "=1.25.2"
yamlpath = "=1.25.2"
