[package]
name = "midisynth"
version = "0.1.0"
edition = "2021"
publish = false

[dependencies]
clap = { version = "4", features = ["derive"] }
clio = { version = "0.3", features = ["clap-parse"] }
console = "0.15"
indicatif = "0.17"
midly = "0.5"
rustysynth = "1.3"
toml = "0.8"
wavers = "1"
