[package]
name = "vis_municipality_votes"
version = "0.1.0"
edition = "2021"
publish = false

[dependencies]
actix-service = "2"
actix-web = "4"
anyhow = "1"
askama = "0.12"
csv = "1"
geo = "0.28"
geojson = "0.24"
proj = "*"
reqwest = "0.12"
scraper = "*"
serde = { version = "1", features = ["derive"] }
serde_json = "1"
tokio = { version = "1", features = ["macros", "rt-multi-thread"] }
toml = "0.8"
