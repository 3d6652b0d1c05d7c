[package]
name = "xfce_config"
version = "0.1.0"
edition = "2021"
publish = false

[dependencies]
im = "=15.1.0"
quick-xml = "=0.22.0"
anyhow = "=1.0.104"
serde = { version = "=1.0.229", features = ["derive"] }
serde_json = "=1.0.154"
glib = "=0.15.12"
gio = "=0.15.12"
dirs2 = "=3.0.1"
structopt = "=0.3.26"
heck = "=0.3.3"
syn = "=1.0.109"
