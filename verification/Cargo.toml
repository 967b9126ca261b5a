[package]
name = "ferricula"
version = "0.1.0"
edition = "2021"
publish = false

[dependencies]
roaring = "*"
hex = "*"
hkdf = "*"
sha2 = "*"
x25519-dalek = { version = "2", features = ["static_secrets"] }
serde = { version = "1", features = ["derive"] }
serde_json = "1"
anyhow = "1"
postcard = { version = "1", features = ["alloc"] }
sqlparser = "*"
tiny_http = "*"
rustls = "0.23"
webpki-roots = "*"
ctrlc = "*"
crossterm = "*"
ratatui = "*"
tokio = { version = "1", features = ["full"] }
axum = "*"
reqwest = { version = "*", default-features = false, features = ["json", "rustls-tls"] }
rmcp = { version = "*", features = ["server", "macros", "transport-streamable-http-server"] }
schemars = "*"
