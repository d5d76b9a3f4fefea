[package]
name = "fead"
version = "0.1.0"
edition = "2021"
publish = false

[dependencies]
quick-xml = "=0.42.0"
htmlentity = "=1.3.2"
ratatui = "=0.30.2"
crossterm = "=0.29.0"
tui-input = "=0.15.5"
tui-markdown = "=0.3.10"
htmd = "=0.5.5"
reqwest = { version = "*", default-features = false }
tokio = { version = "*", features = ["rt-multi-thread", "macros", "sync", "time"] }

[dev-dependencies]
serde_json = "*"
