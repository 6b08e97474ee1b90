[package]
name = "homebox"
version = "0.1.0"
edition = "2021"
publish = false

[dependencies]
uuid = { version = "1", features = ["v4", "serde"] }
chrono = { version = "0.4", features = ["serde"] }
rocksdb = { version = "*", default-features = false }
datamatrix = "*"
png = "*"
serde = { version = "1", features = ["derive"] }
serde_yaml = "*"
log = "0.4"
log4rs = "1"
structopt = "0.3"
anyhow = "1"
actix-web = { version = "4", default-features = false, features = ["macros", "cookies"] }
actix-session = { version = "*", features = ["cookie-session"] }
async-graphql = { version = "*", features = ["uuid", "chrono"] }
async-graphql-actix-web = "*"
