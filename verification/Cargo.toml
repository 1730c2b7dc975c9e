[package]
name = "sulafat_core"
version = "0.1.0"
edition = "2021"
publish = false

[dependencies]
gettext-rs = { version = "*", features = ["gettext-system"] }
glob = "*"
directories = "*"
serde = { version = "1", features = ["derive"] }
toml = "*"
thiserror = "*"
notify = "*"
tracing = "*"
tracing-subscriber = { version = "*", features = ["env-filter"] }
gtk4 = { version = "*", features = ["v4_10"] }
libadwaita = { version = "*", features = ["v1_5"] }
vte4 = "*"
