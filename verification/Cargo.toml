[package]
name = "feedcore"
version = "0.1.0"
edition = "2021"
publish = false

[dependencies]
serde_json = "1"
rocksdb = "0.17"
rocket = { version = "0.5", features = ["secrets"] }
rocket_dyn_templates = { version = "0.2", features = ["tera"] }
structopt = "0.3"
