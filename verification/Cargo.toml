[package]
name = "graphql_test"
version = "0.1.0"
edition = "2021"
publish = false

[dependencies]
slab = "=0.4.12"
dashmap = "=4.0.2"
jsonwebtoken = "=7.2.0"
rand = "=0.8.8"
futures = "=0.3.34"
tokio = { version = "=1.54.1", features = ["sync", "time"] }
tokio-stream = { version = "=0.1.19", features = ["sync"] }
async-stream = "=0.3.6"
pin-project = "=1.1.13"
once_cell = "=1.21.4"
lazy_static = "=1.5.1"
serde = { version = "=1.0.229", features = ["derive"] }
thiserror = "=1.0.69"
async-graphql = { version = "=2.11.3", features = ["tracing"] }
async-graphql-actix-web = "=2.11.3"
actix-web = "=3.3.3"
actix-rt = "=1.1.1"
actix-cors = "=0.5.4"
sqlx = { version = "=0.5.13", default-features = false, features = ["postgres", "runtime-actix-rustls"] }
tracing = "=0.1.44"
tracing-actix-web = "=0.2.1"
tracing-log = "=0.1.4"
tracing-subscriber = "=0.2.25"
