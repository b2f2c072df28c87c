[package]
name = "ff-node-monitor"
version = "0.1.0"
edition = "2021"
publish = false

[dependencies]
anyhow = "1"
base64 = "0.22"
chrono = { version = "0.4", features = ["serde"] }
diesel = { version = "2", features = ["postgres"] }
diesel_migrations = "2"
hex = "0.4"
lettre = { version = "0.11", features = ["tokio1", "tokio1-native-tls"] }
reqwest = { version = "0.12", features = ["json"] }
ring = "0.17"
rocket = "0.5"
rocket_dyn_templates = { version = "0.2", features = ["handlebars"] }
rocket_sync_db_pools = { version = "0.1", features = ["diesel_postgres_pool"] }
serde = { version = "1", features = ["derive"] }
serde_json = "1"
serde_repr = "0.1"
thiserror = "1"
url = { version = "2", features = ["serde"] }

[dev-dependencies]
rmp-serde = "1"
