[package]
name = "maratona_animeitor_rust"
version = "0.1.0"
edition = "2021"
publish = false

[dependencies]
serde = { version = "=1.0.229", features = ["derive"] }
serde_json = "=1.0.154"
tokio = { version = "=1.54.1", features = ["macros", "rt-multi-thread", "time", "sync"] }
warp = "=0.3.7"
seed = "=0.10.0"
diesel = { version = "=2.3.14", default-features = false, features = ["32-column-tables"] }
rand = "=0.8.8"
