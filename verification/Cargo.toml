[package]
name = "metainjester"
version = "0.1.0"
edition = "2021"
publish = false

[dependencies]
ctrlc = "*"
mime_guess = "*"
rusqlite = "*"
rustix = { version = "*", features = ["fs"] }
serde = { version = "1", features = ["derive"] }
sha2 = "*"
toml = "*"
