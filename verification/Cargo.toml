[package]
name = "sotext"
version = "0.1.0"
edition = "2021"
publish = false

[dependencies]
md-5 = "0.10"
rust-stemmers = "1"
stop-words = "*"
strsim = "*"
whatlang = "*"
scraper = "*"
dotext = "*"
rust_xlsxwriter = "*"
genpdf = "*"
docx-rs = "*"
serde = { version = "1", features = ["derive"] }
