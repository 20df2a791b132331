[package]
name = "bezirke"
version = "0.1.0"
edition = "2021"
publish = false

[dependencies]
petgraph = "0.6"
geo = "0.29"
wkt = "0.11"
rstar = "0.12"
prost = { version = "0.13", features = ["derive"] }
nix = { version = "0.29", features = ["socket", "net"] }
dotenv = "0.15"
svg = "0.17"
