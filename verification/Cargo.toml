[package]
name = "docgaps"
version = "0.1.0"
edition = "2021"
publish = false

[dependencies]
anstream = "*"
anstyle = "*"
anyhow = "*"
clap = "*"
directories = "*"
glob = "*"
serde = { version = "*", features = ["derive"] }
str_indices = "*"
toml = "*"
