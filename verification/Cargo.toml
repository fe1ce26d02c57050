[package]
name = "heater_control"
version = "0.1.0"
edition = "2021"
publish = false

[dependencies]
anyhow = "=1.0.104"
esp-idf-hal = "=0.43.1"
esp-idf-svc = "=0.48.1"
esp-idf-sys = "=0.34.1"
log = "=0.4.34"
toml-cfg = "=0.2.0"
url = "=2.5.8"
