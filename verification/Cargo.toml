[package]
name = "teamim_tools"
version = "0.1.0"
edition = "2021"
publish = false

[dependencies]
suffix = "=1.3.0"
similar = "=2.7.0"
quick-xml = { version = "=0.37.5", features = ["async-tokio"] }
maud = "=0.27.0"
clap = { version = "=4.6.7", features = ["derive"] }
eyre = "=0.6.14"
rayon = "=1.12.0"
tokio = { version = "=1.54.1", features = ["fs", "io-util", "macros", "rt-multi-thread"] }
reqwest = { version = "=0.13.5", features = ["stream"] }
futures = "=0.3.34"
tokio-util = { version = "=0.7.20", features = ["compat"] }
image = { version = "0.25", default-features = false, features = ["jpeg"] }
