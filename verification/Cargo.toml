[package]
name = "fuzzy_finder"
version = "0.1.0"
edition = "2021"
publish = false

[dependencies]
fuzzy-matcher = "0.3"
lexical-sort = "0.3"
lru = "*"
ignore = "*"
