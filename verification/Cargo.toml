[package]
name = "renium"
version = "0.1.0"
edition = "2021"
publish = false

[dependencies]
anyhow = "1"
clap = { version = "4", features = ["derive"] }
globset = "0.4"
rayon = "1"
rbx_binary = "*"
rbx_dom_weak = "*"
rbx_reflection = "*"
rbx_reflection_database = "*"
rbx_xml = "*"
serde = { version = "1", features = ["derive"] }
serde_json = "1"
sha2 = "0.10"
walkdir = "2"
