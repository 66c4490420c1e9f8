[package]
name = "locate-git-projects-on-my-computer"
version = "0.1.0"
edition = "2021"
publish = false

[dependencies]
arbitrary = { version = "=1.5.0", features = ["derive"] }
chrono = "=0.4.45"
eyre = "=0.6.14"
facet = "=0.46.5"
facet-json = "=0.46.1"
facet-toml = "=0.46.1"
figue = "=4.0.5"
gix = { version = "=0.90.0", default-features = false, features = ["sha1"] }
humantime = "=2.4.0"
tokio = { version = "=1.54.1", features = ["rt-multi-thread", "macros"] }
tracing = "=0.1.44"
