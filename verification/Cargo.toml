[package]
name = "flashcards"
version = "0.1.0"
edition = "2021"
publish = false

[dependencies]
toml = "*"
sublime_fuzzy = "*"
rand = "*"
katex = "*"
pulldown-cmark = "*"
pulldown-cmark-escape = "*"
base64 = "*"
serde = { version = "*", features = ["derive"] }
serde_urlencoded = "*"
cookie = "*"
http = "*"
http-body-util = "*"
bytes = "*"
hyper = { version = "*", features = ["server", "http1", "http2"] }
hyper-util = { version = "*", features = ["server", "server-auto", "tokio", "service"] }
hyper-staticfile = "*"
tokio = { version = "*", features = ["full"] }
