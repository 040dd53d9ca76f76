[package]
name = "rcja_tournament_scheduler"
version = "0.1.0"
edition = "2021"
publish = false

[dependencies]
serde = { version = "1", features = ["derive"] }
serde_json = "1"
rand = "0.8"
chrono = { version = "0.4", default-features = false, features = ["clock"] }
genpdf = "0.2"
