[package]
name = "snorm"
version = "0.1.0"
edition = "2021"
publish = false

[dependencies]
rustmatica = "=0.5.2"
mcdata = "=0.4.0"
anyhow = "=1.0.104"
clap = { version = "=4.6.7", features = ["derive"] }
clap_complete = { version = "=4.6.11", features = ["unstable-dynamic"] }
directories = "=6.0.0"
serde = { version = "=1.0.229", features = ["derive"] }
serde_json = "=1.0.154"
toml = "=1.1.8"
sha1 = "=0.11.0"
hex = "=0.4.3"
zip = { version = "=9.2.2", default-features = false, features = ["deflate"] }
ureq = "=3.5.1"
tempfile = "=3.27.0"
tracing = "=0.1.44"
tracing-subscriber = "=0.3.23"
anstream = "=1.0.0"
anstyle = "=1.0.14"
annotate-snippets = "=0.12.17"
libc = "=0.2.191"
