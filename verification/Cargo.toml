[package]
name = "pea_server"
version = "0.1.0"
edition = "2021"
publish = false

[dependencies]
actix-cors = "*"
actix-files = "*"
actix-multipart = "*"
actix-web = "4"
crossbeam-channel = "0.5"
crossterm = "*"
futures-util = "0.3"
local-ip-address = "*"
log = "0.4"
reqwest = { version = "*", default-features = false, features = ["blocking", "json"] }
serde = { version = "1", features = ["derive"] }
serde_json = "1"
simple_logger = "*"
tokio = { version = "1", features = ["macros", "rt-multi-thread"] }
uuid = { version = "1", features = ["v4"] }
