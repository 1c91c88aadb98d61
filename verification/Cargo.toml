[package]
name = "clojure_toolchain"
version = "0.2.0"
edition = "2021"
publish = false

[dependencies]
clojure-reader = "=0.7.0"
sha2 = "=0.10.9"
moon_pdk_api = "=2.3.0"
moon_pdk = { version = "=2.3.0", features = ["schematic"] }
moon_config = "=2.2.2"
extism-pdk = "=1.4.1"
schematic = "=0.20.12"
serde = { version = "=1.0.229", features = ["derive"] }
