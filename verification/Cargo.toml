[package]
name = "go_board"
version = "0.1.0"
edition = "2021"
publish = false

[dependencies]
rand = "*"
uuid = { version = "*", features = ["v4"] }
poem = "*"
tokio = { version = "*", features = ["rt-multi-thread", "macros", "time"] }
serde = { version = "*", features = ["derive"] }
serde_json = "*"
lazy_static = "*"
rust-embed = "*"
hex = "*"
mime_guess = "*"
dotenv = "*"
