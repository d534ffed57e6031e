[package]
name = "static_serve"
version = "0.1.0"
edition = "2021"
publish = false

[dependencies]
askama = "=0.12.1"
chrono = "=0.4.45"
gotham = "=0.7.4"
hyper = "=0.14.32"
mime = "=0.3.17"
mime_guess = "=2.0.5"
percent-encoding = "=2.3.2"
zip = { version = "=0.5.13", default-features = false }
