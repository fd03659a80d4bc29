[package]
name = "postkasse"
version = "0.1.0"
edition = "2021"
publish = false

[dependencies]
anyhow = "*"
clap = { version = "*", features = ["derive"] }
config = { version = "*", default-features = false, features = ["toml"] }
console = "*"
dialoguer = "*"
env_logger = "*"
futures = "*"
indicatif = "*"
indicatif-log-bridge = "*"
jmap-client = "*"
keyring = { version = "*", default-features = false }
log = "*"
mail-parser = "*"
open = "*"
opendal = { version = "*", default-features = false, features = ["services-fs", "layers-blocking"] }
prettytable-rs = "*"
rayon = "*"
serde = { version = "*", features = ["derive"] }
serde_json = "*"
tantivy = "*"
tokio = { version = "*", features = ["rt-multi-thread", "macros"] }

[dev-dependencies]
tempfile = "*"
