[package]
name = "urldecoder"
version = "0.1.0"
edition = "2021"
publish = false

[dependencies]
memchr = "2"
simdutf8 = "0.1"
regex = "1"
urlencoding = "2"
clap = { version = "4", features = ["derive"] }
colored = "*"
glob = "0.3"
tokio = { version = "1", features = ["rt-multi-thread", "macros", "fs"] }
die-exit = "*"
snafu = "0.8"
tempfile = "3"
