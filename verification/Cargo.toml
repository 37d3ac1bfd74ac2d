[package]
name = "persistent_loadout"
version = "0.1.0"
edition = "2021"
publish = false

[dependencies]
xplm = "=0.3.1"
xplm-sys = "=0.4.0"

[dev-dependencies]
serde_json = "=1.0.151"
