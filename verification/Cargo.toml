[package]
name = "awsctx"
version = "0.1.0"
edition = "2021"
publish = false

[dependencies]
anyhow = "*"
clap = { version = "*", features = ["derive"] }
clap_complete = "*"
config = "*"
dirs = "*"
handlebars = "*"
log = "*"
serde = { version = "*", features = ["derive"] }
serde_json = "*"
serde_yaml = "*"
simplelog = "*"
skim = "*"
thiserror = "*"
