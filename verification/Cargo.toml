[package]
name = "pst2pdf"
version = "0.1.0"
edition = "2021"
publish = false

[dependencies]
anyhow = "=1.0.104"
chrono = { version = "=0.4.45", default-features = false, features = ["std", "clock"] }
clap = { version = "=4.6.7", features = ["derive"] }
eml-codec = "=0.1.2"
flate2 = "=1.1.10"
printpdf = { version = "=0.12.8", default-features = false }
zip = { version = "=9.2.2", default-features = false, features = ["deflate"] }
