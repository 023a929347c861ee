[package]
name = "poster_cache"
version = "0.1.0"
edition = "2021"
publish = false

[dependencies]
actix-cors = "*"
actix-web = { version = "4", default-features = false, features = ["macros"] }
r2d2 = "*"
r2d2_sqlite = "*"
rusqlite = "*"
serde = { version = "1", features = ["derive"] }
thirtyfour = "*"
tokio = { version = "1", features = ["full"] }
