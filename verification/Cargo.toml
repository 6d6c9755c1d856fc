[package]
name = "linehist"
version = "0.1.0"
edition = "2021"
publish = false

[dependencies]
anyhow = "1"
clap = { version = "4", features = ["derive"] }
git-repository = "*"
terminal_size = "*"
textplots = "*"
time = { version = "0.3", features = ["formatting", "macros"] }
