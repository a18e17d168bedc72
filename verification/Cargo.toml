[package]
name = "lila_ws_gateway"
version = "0.1.0"
edition = "2021"
publish = false

[dependencies]
shakmaty = { version = "*", features = ["variant"] }
lru = "*"
cookie = "*"
serde_urlencoded = "*"
serde = { version = "*", features = ["derive"] }
serde_json = "*"
ws = "*"
redis = "*"
mongodb = { version = "*", features = ["sync"] }
crossbeam = "*"
log = "*"
env_logger = "*"
structopt = "*"
once_cell = "*"
parking_lot = "*"
mio-extras = "*"
