[package]
name = "dwd"
version = "0.1.0"
edition = "2021"
publish = false

[dependencies]
actix-web = { version = "4", default-features = false, features = ["macros", "rustls-0_23"] }
anyhow = "1"
axum = { version = "0.8", default-features = false, features = ["http1", "tokio"] }
bytes = "1"
clap = { version = "4", features = ["derive"] }
h3 = "0.0.8"
h3-quinn = "0.0.10"
http = "1"
http-body-util = "0.1"
libc = "0.2"
log = "0.4"
netlink-packet-core = "0.7"
netlink-packet-route = "0.22"
netlink-sys = "0.8"
pcap-parser = "0.16"
pnet = "0.35"
quinn = { version = "0.11", default-features = false, features = ["runtime-tokio", "rustls-ring"] }
rand = "0.9"
rcgen = "0.13"
rustls = { version = "0.23", default-features = false, features = ["ring", "std", "tls12"] }
rustls-pemfile = "2"
serde = { version = "1", features = ["derive"] }
serde_json = "1"
thiserror = "2"
tokio = { version = "1", features = ["rt", "rt-multi-thread", "macros", "net", "time", "sync", "io-util"] }
tokio-rustls = { version = "0.26", default-features = false, features = ["ring", "tls12"] }
tokio-stream = { version = "0.1", features = ["net"] }
toml = "0.8"
tonic = { version = "0.14", default-features = false, features = ["transport", "server", "router", "codegen"] }
tonic-reflection = "0.14"
