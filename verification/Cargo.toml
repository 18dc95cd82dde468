[package]
name = "plagiarism_basic"
version = "0.1.0"
edition = "2021"
publish = false

[dependencies]
strsim = "*"
clap = "*"
handlebars = "*"
fs_extra = "*"
serde = { version = "1", features = ["derive"] }
