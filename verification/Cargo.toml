[package]
name = "tsynth"
version = "0.1.0"
edition = "2021"
publish = false

[dependencies]
rand = "*"
ndarray = "*"
ndarray-npy = "*"
openqasm = "*"
quizx = "*"
clap = { version = "*", features = ["derive"] }
console = "*"
indicatif = "*"
serde = { version = "*", features = ["derive"] }
serde_json = "*"
tempfile = "*"

[dev-dependencies]
rayon = "*"
