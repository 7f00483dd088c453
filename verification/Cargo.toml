[package]
name = "dialoguer"
version = "0.1.0"
edition = "2021"
publish = false

[dependencies]
anyhow = "1"
log = "0.4"
env_logger = "*"
serde = { version = "1", features = ["derive"] }
ron = "*"
natord = "*"
undoredo = "*"

[dev-dependencies]
chumsky = "*"
