[package]
name = "terminal_svg"
version = "0.1.0"
edition = "2021"
publish = false

[dependencies]
avt = "*"
regex-lite = "*"
flate2 = "1"
base64 = "0.22"
anyhow = "1"
serde = { version = "1", features = ["derive"] }
serde_json = "1"
toml = "*"
clap = { version = "4", features = ["derive"] }
clap_complete = "4"
clap_mangen = "*"
portable-pty = "*"
rustix = { version = "1", features = ["termios", "event"] }
tiny_http = "*"
ttf-parser = "*"
allsorts = "*"
ttf2woff2 = "*"
