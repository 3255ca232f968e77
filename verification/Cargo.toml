[package]
name = "scrap"
version = "0.1.0"
edition = "2021"
publish = false

[dependencies]
chrono = "0.4"
clap = "4"
hex = "0.4"
maud = "0.26"
pulldown-cmark = "0.9"
serde = { version = "1", features = ["derive"] }
tiny-keccak = { version = "2", features = ["shake"] }
tokio = { version = "1", features = ["macros", "rt-multi-thread"] }
toml = "0.8"
warp = "0.3"
