[package]
name = "streetwarp"
version = "0.1.0"
edition = "2021"
publish = false

[dependencies]
geo = "*"
serde = { version = "1", features = ["derive"] }
serde_json = "1"
gpx = "*"
structopt = "*"
reqwest = { version = "*", default-features = false, features = ["blocking"] }
