[package]
name = "wynn_browser"
version = "0.1.0"
edition = "2021"
publish = false

[dependencies]
aes-gcm = "0.10"
argon2 = "0.5"
base64 = "0.22"
crypto_box = "0.9"
gio = "0.21"
glib = "0.21"
gtk4 = { version = "0.10", features = ["v4_12"] }
libadwaita = { version = "0.8", features = ["v1_5"] }
rand = "0.8"
rusqlite = { version = "0.32", features = ["bundled"] }
serde_json = "1"
webkit6 = { version = "0.5", features = ["v2_42"] }
