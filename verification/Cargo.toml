[package]
name = "simple_decompiler"
version = "0.1.0"
edition = "2021"
publish = false

[dependencies]
anyhow = "=1.0.104"
clap = { version = "=4.6.7", features = ["derive"] }
env_logger = "=0.11.11"
goblin = "=0.8.2"
iced-x86 = "=1.22.0"
log = { version = "=0.4.35", features = ["max_level_info", "release_max_level_info"] }
