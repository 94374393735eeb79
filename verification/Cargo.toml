[package]
name = "eso_addons_core"
version = "0.1.0"
edition = "2021"
publish = false

[dependencies]
async-trait = "0.1"
lazy_async_promise = "=0.6.0"
sea-orm = { version = "=0.10.7", features = ["sqlx-sqlite", "runtime-tokio-rustls", "macros"] }
sea-orm-migration = { version = "=0.10.7", default-features = false, features = ["sqlx-sqlite", "runtime-tokio-rustls"] }
snafu = "=0.7.5"
tempfile = "=3.27.0"
tokio = { version = "1", features = ["full"] }
tracing = { version = "0.1", features = ["log"] }
zip = { version = "=0.6.6", default-features = false, features = ["bzip2", "deflate", "time", "zstd"] }
