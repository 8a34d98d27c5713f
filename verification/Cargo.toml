[package]
name = "fpm"
version = "0.1.0"
edition = "2021"
publish = false

[dependencies]
camino = "1"
diffy = "0.2"
sha2 = "0.10"
itertools = "0.10"
ignore = "0.4"
serde = { version = "1", features = ["derive"] }
serde_json = "1"
tokio = { version = "1", features = ["full"] }
futures = "0.3"
clap = "2"
actix-web = "4"
actix-files = "0.6"
reqwest = { version = "0.11", default-features = false, features = ["blocking"] }
ftd = "0.1"
