[package]
name = "wikidata_db"
version = "0.1.0"
edition = "2021"
publish = false

[dependencies]
json = "*"
bzip2 = "*"
clap = { version = "*", features = ["derive"] }
csv = "*"
indicatif = "*"
threadpool = "*"
