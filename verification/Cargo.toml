[package]
name = "steampunk"
version = "0.4.8"
edition = "2021"
publish = false

[dependencies]
anyhow = "1"
gdk4 = "0.11"
gio = "0.22"
glib = "0.22"
gtk4 = { version = "0.11", features = ["v4_12"] }
libadwaita = { version = "0.9", features = ["v1_5"] }
reqwest = { version = "0.13", default-features = false, features = ["json", "rustls"] }
serde = { version = "1", features = ["derive"] }
serde_json = "1"
tokio = { version = "1", features = ["rt-multi-thread", "sync", "time"] }
