[package]
name = "gitgov-rs"
version = "0.1.0"
edition = "2021"
publish = false

[dependencies]
anyhow = "=1.0.104"
async-io = "=2.6.0"
chrono = "=0.4.45"
dotenv = "=0.15.0"
file-lock = "=2.1.11"
futures-lite = "=2.6.1"
git2 = "=0.21.0"
lol_html = "=3.0.2"
mailin = "=0.6.5"
mailparse = "=0.18.0"
scraper = "=0.29.0"
temp-file = "=0.2.0"
ureq = "=3.5.0"
url = "=2.5.8"
