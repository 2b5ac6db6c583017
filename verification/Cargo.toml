[package]
name = "ren"
version = "0.1.0"
edition = "2021"
publish = false

[dependencies]
anyhow = "1"
clap = { version = "4", features = ["derive", "env"] }
clap_complete = "4"
crossterm = "0.29"
ignore = "0.4"
Inflector = { version = "0.11", default-features = false }
natord = "1"
num-format = { version = "0.4", features = ["with-system-locale"] }
regex = "1"
serde = { version = "1", features = ["derive"] }
toml = "0.9"
