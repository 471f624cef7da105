[package]
name = "genrepass"
version = "1.1.4"
edition = "2021"
publish = false

[dependencies]
copypasta-ext = "*"
deunicode = "1"
rand = "0.8"
rayon = "1"
regex = "1"
serde = { version = "1", features = ["derive"] }
simdutf8 = "0.1"
structopt = "0.3"
unicode-segmentation = "1"
walkdir = "2"
