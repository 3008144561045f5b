[package]
name = "dice_events"
version = "0.1.0"
edition = "2021"
publish = false

[dependencies]
clap = { version = "4", features = ["cargo"] }
tabled = "*"

[dev-dependencies]
regex = "1"
