[package]
name = "resims"
version = "0.1.0"
edition = "2021"
publish = false

[dependencies]
pathfinding = "=4.16.0"
rand = "=0.9.5"
rand_chacha = "=0.9.0"
geo = "=0.33.1"
glam = "=0.34.2"
serde = { version = "1", features = ["derive"] }
serde_json = "1"
anyhow = "1"
env_logger = "*"
log = "0.4"
bytemuck = "1"
game-utils = "=0.4.3"
repose-core = "0.26"
repose-ui = "0.26"
