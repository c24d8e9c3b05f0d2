[package]
name = "dtk_pal"
version = "0.1.0"
edition = "2021"
publish = false

[dependencies]
relative-path = { version = "*", features = ["serde"] }
ariadne = "*"
clap = { version = "*", features = ["derive"] }
enumset = "*"
eyre = "*"
serde = { version = "*", features = ["derive"] }
serde_json = "*"
yaml_serde = "*"

[dev-dependencies]
chumsky = { version = "*", features = ["regex"] }
