[package]
name = "algoooo"
version = "0.1.0"
edition = "2021"
publish = false

[dependencies]
algoleague = "*"
anyhow = "1"
askama = "*"
clap = { version = "4", features = ["derive"] }
dotenvy = "0.15"
futures = "0.3"
serde = { version = "1", features = ["derive"] }
sqlx = { version = "0.8", default-features = false, features = ["postgres", "runtime-tokio", "migrate", "chrono"] }
static_dir = "*"
thiserror = "*"
tokio = { version = "1", features = ["macros", "rt-multi-thread"] }
warp = "0.3"
yaml_serde = "*"
