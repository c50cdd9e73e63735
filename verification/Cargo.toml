[package]
name = "lyric_check"
version = "0.1.0"
edition = "2021"
publish = false

[dependencies]
anyhow = "1"
askama = "0.12"
diff = "0.1"
rocket = "0.5"
roxmltree = "0.20"
tokio = { version = "1", features = ["fs"] }
webbrowser = "*"
