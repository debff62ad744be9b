[package]
name = "amicola"
version = "0.1.0"
edition = "2021"
publish = false

[dependencies]
itertools = "=0.8.2"
log = "=0.4.35"
lyon_geom = "0.15"

[dev-dependencies]
float-ord = "=0.2.0"
lyon_path = "0.15"
