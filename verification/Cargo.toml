[package]
name = "counter_store"
version = "0.1.0"
edition = "2021"
publish = false

[dependencies]
diesel = { version = "2", features = ["postgres"] }
diesel_migrations = "2"
postgres = "0.19"
rocket = { version = "0.5", features = ["json"] }
rocket_db_pools = { version = "*", features = ["sqlx_postgres"] }
rocket_okapi = { version = "*", features = ["swagger", "rapidoc"] }
rocket_sync_db_pools = { version = "*", features = ["diesel_postgres_pool", "postgres_pool"] }
schemars = "0.8"
serde = { version = "1", features = ["derive"] }
sqlx = { version = "0.7", default-features = false, features = ["postgres", "macros"] }
