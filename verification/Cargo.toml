[package]
name = "charts"
version = "0.1.0"
edition = "2021"
publish = false

[dependencies]
petgraph = "0.6"
itertools = "0.12"
serde = { version = "1", features = ["derive"] }
serde_json = "1"
csv = "1"
thiserror = "1"
color-eyre = "0.6"
strum = { version = "0.25", features = ["derive"] }
svgdom = "0.18"
