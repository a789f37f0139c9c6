[package]
name = "hit"
version = "0.1.0"
edition = "2021"
publish = false

[dependencies]
arboard = "3"
clap = { version = "4", features = ["derive"] }
colored_json = "5"
commands = "*"
convert_case = "0.6"
crossterm = "0.28"
edit = "0.1"
flatten-json-object = "*"
handlebars = "6"
inquire = "0.7"
openapiv3 = "2"
regex = "1"
reqwest = { version = "0.12", default-features = false, features = ["blocking", "json", "multipart", "rustls-tls"] }
serde = { version = "1", features = ["derive"] }
serde_json = "1"
strum = { version = "0.26", features = ["derive"] }
