[package]
name = "crunchy_cli_core"
version = "0.1.0"
edition = "2021"
publish = false

[dependencies]
shlex = "=2.0.1"
sanitize-filename = "=0.6.0"
regex-syntax = "=0.8.11"
anyhow = "=1.0.104"
async-trait = "=0.1.92"
chrono = "=0.4.45"
clap = { version = "=4.6.7", features = ["derive", "string"] }
crunchyroll-rs = { version = "=0.19.1", features = ["experimental-stabilizations"] }
ctrlc = "=3.5.2"
dialoguer = "=0.12.0"
dirs = "=7.0.0"
fs2 = "=0.4.3"
indicatif = "=0.18.6"
log = "=0.4.35"
num_cpus = "=1.17.0"
regex = "=1.13.1"
reqwest = "=0.13.5"
serde = { version = "=1.0.229", features = ["derive"] }
serde_json = "=1.0.154"
serde_plain = "=1.0.2"
sys-locale = "=0.3.2"
tempfile = "=3.27.0"
tokio = { version = "=1.54.1", features = ["macros", "rt-multi-thread", "fs", "net", "io-util", "time", "sync"] }
toml = "=1.1.8"
