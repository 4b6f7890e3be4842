[package]
name = "wordle_guesser"
version = "0.1.0"
edition = "2021"
publish = false

[dependencies]
clap = { version = "3", features = ["derive"] }
itertools = "0.10"
rayon = "1"
textwrap = { version = "0.14", features = ["terminal_size"] }
