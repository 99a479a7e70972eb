[package]
name = "z_sharp"
version = "0.1.0"
edition = "2021"
publish = false

[dependencies]
mlua = { version = "0.11", features = ["luau", "serialize"] }
mlua-magic-macros = "*"
regex = "1"
serde = { version = "1", features = ["derive"] }
serde_json = "1"
tokio = { version = "1", features = ["rt", "macros", "fs"] }
log = "0.4"
