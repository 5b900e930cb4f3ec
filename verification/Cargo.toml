[package]
name = "find_torrent_data"
version = "1.0.0"
edition = "2021"
publish = false

[dependencies]
clap = "2"
lava_torrent = "*"
multimap = { version = "*", default-features = false }
sha1 = "0.10"
walkdir = "2"
