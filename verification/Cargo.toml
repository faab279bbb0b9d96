[package]
name = "neptungen"
version = "0.9.0"
edition = "2021"
rust-version = "1.95"
publish = false

[dependencies]
sha1 = "=0.10.7"
anyhow = "1"
log = "0.4"
walkdir = "2"
rayon = "1"
memmap = "0.7"
rpassword = "7"
suppaftp = "*"
ssh2 = "*"
toml = "*"
serde = { version = "1", features = ["derive"] }
serde_json = "1"
clap = { version = "4", features = ["derive"] }
flexi_logger = "*"
term-painter = "*"
regex = "1"
lazy_static = "1"
time = { version = "0.3", features = ["formatting", "local-offset"] }
pulldown-cmark = "*"
liquid = "*"
kstring = "=2.0.2"
image = { version = "*", default-features = false, features = ["png", "jpeg", "gif"] }
axum = "*"
tokio = { version = "1", features = ["rt-multi-thread", "macros", "net"] }
tower-http = { version = "*", features = ["fs", "trace"] }
portpicker = "*"
