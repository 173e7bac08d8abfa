[package]
name = "cached_nix_shell"
version = "0.1.0"
edition = "2021"
publish = false

[dependencies]
blake3 = "*"
serde_json = "*"
tempfile = "*"
xdg = "*"
