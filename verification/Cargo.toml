[package]
name = "infrahub_erd"
version = "0.4.0"
edition = "2021"
publish = false

[dependencies]
graphql-parser = "0.4"
regex = "1"
clap = { version = "4", features = ["derive", "env"] }
infrahub = "0.2"
tokio = { version = "1", features = ["macros", "rt-multi-thread"] }
serde = { version = "1", features = ["derive"] }
serde_json = "1"
thiserror = "2"
