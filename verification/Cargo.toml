[package]
name = "black_sea"
version = "0.3.0"
edition = "2021"
publish = false

[dependencies]
anyhow = "1"
axum = "0.8"
bincode = "1.3"
clap = { version = "4", features = ["derive"] }
crossterm = "0.28"
csv = "1"
futures-util = "0.3"
geo = { version = "*", default-features = false }
http-body-util = "0.1"
hyper = { version = "1", features = ["http1", "server"] }
hyper-util = { version = "0.1", features = ["tokio"] }
indicatif = "0.17"
lazy_static = "1"
prometheus = { version = "0.13", default-features = false }
rand = "0.9"
ratatui = "0.29"
rayon = "1"
reqwest = { version = "0.12", default-features = false, features = ["json", "rustls-tls"] }
rustls = { version = "0.23", default-features = false, features = ["ring", "std"] }
semver = "1"
serde = { version = "1", features = ["derive"] }
serde_json = "1"
serde_repr = "0.1"
shapefile = "*"
tokio = { version = "1", features = ["full"] }
tokio-tungstenite = { version = "0.26", features = ["rustls-tls-webpki-roots"] }
ureq = "3"
zip = { version = "2", default-features = false, features = ["deflate"] }
