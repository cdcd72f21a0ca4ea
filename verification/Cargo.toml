[package]
name = "pinyin_hmm"
version = "0.1.0"
edition = "2021"
publish = false

[dependencies]
itertools = "*"
pinyin = "*"
redb = "*"
serde_json = "*"

[dev-dependencies]
regex = "*"
