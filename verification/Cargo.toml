[package]
name = "emlop"
version = "0.1.0"
edition = "2021"
publish = false

[dependencies]
anyhow = "=1.0.104"
atoi = "=2.0.0"
clap = { version = "=4.6.7", features = ["cargo"] }
clap_complete = "=4.6.11"
crossbeam-channel = "=0.5.17"
env_logger = "=0.11.11"
flate2 = "=1.1.10"
libc = "=0.2.191"
log = "=0.4.35"
memchr = "=2.8.3"
regex = "=1.13.1"
rev_lines = "=0.3.0"
serde = { version = "=1.0.229", features = ["derive"] }
serde_json = "=1.0.154"
sysconf = "=0.3.4"
time = { version = "=0.3.55", features = ["macros", "formatting", "parsing", "local-offset"] }
toml = "*"
