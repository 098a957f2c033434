[package]
name = "miniplan"
version = "0.1.0"
edition = "2021"
publish = false

[dependencies]
fixedbitset = "=0.5.7"
pddl = "=0.2.0"
rustc-hash = "=2.1.3"
thiserror = "=2.0.21"
anyhow = "=1.0.104"
clap = { version = "=4.6.7", features = ["derive"] }
humantime = "=2.4.0"
serde_json = "=1.0.154"
tracing = "=0.1.44"
tracing-subscriber = { version = "=0.3.23", features = ["env-filter"] }
bitflags = "=2.13.2"
ratatui = "0.29"
crossterm = "0.28"
