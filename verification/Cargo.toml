[package]
name = "shodan_pipeline"
version = "0.1.0"
edition = "2021"
publish = false

[dependencies]
anyhow = "*"
clap = { version = "*", features = ["derive", "env"] }
csv = "*"
directories = "*"
indicatif = "*"
libc = "*"
regex = "*"
reqwest = { version = "*", default-features = false }
serde = { version = "*", features = ["derive"] }
serde_json = "*"
serde_yaml = "*"
shell-words = "*"
tokio = { version = "*", features = ["rt-multi-thread", "macros", "process", "fs", "io-util", "sync", "time"] }
trust-dns-resolver = "*"
urlencoding = "*"
