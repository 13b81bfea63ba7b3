[package]
name = "wikiquote"
version = "0.1.0"
edition = "2021"
publish = false

[dependencies]
bimap = "*"
bit-vec = "*"
bzip2 = "*"
collecting-hashmap = "*"
git2 = { version = "*", default-features = false }
parse_mediawiki_dump = "*"
parse_wiki_text = "*"
radix_fmt = "*"
regex = "*"
serde = { version = "*", features = ["derive"] }
serde_json = "*"
structopt = "*"
