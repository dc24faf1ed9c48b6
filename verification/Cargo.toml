[package]
name = "create_rust_app"
version = "0.1.0"
edition = "2021"
publish = false

[dependencies]
anyhow = "1"
clap = { version = "4", features = ["derive"] }
dialoguer = "0.11"
diesel = { version = "2", default-features = false, features = ["postgres"] }
serde = { version = "1", features = ["derive"] }
tsync = "1"
Inflector = { version = "0.11", default-features = false }
