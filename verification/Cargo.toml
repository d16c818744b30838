[package]
name = "cilium-ipip-router"
version = "0.1.0"
edition = "2021"
publish = false

[dependencies]
md5 = "*"
kube = { version = "*", features = ["client", "runtime", "rustls-tls"] }
k8s-openapi = { version = "*", features = ["latest"] }
tokio = { version = "1", features = ["full"] }
actix-web = "4"
anyhow = "1"
log = "0.4"
log4rs = "1"
futures = "0.3"
futures-core = "0.3"
