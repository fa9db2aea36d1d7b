[package]
name = "dino-copy"
version = "0.1.0"
edition = "2021"
publish = false

[dependencies]
anyhow = "1"
blake3 = { version = "1", features = ["pure"] }
clap = { version = "4", features = ["derive"] }
ctrlc = { version = "3", features = ["termination"] }
filetime = "0.2"
globset = "0.4"
indicatif = "*"
jwalk = "0.8"
rayon = "1"
