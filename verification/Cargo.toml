[package]
name = "rumd"
version = "0.1.0"
edition = "2021"
publish = false

[dependencies]
ignore = "0.4"
log = "0.4"
percent-encoding = "2"
pretty_env_logger = "0.4"
tokio = { version = "1", features = ["macros", "rt-multi-thread"] }
warp = "0.3"
