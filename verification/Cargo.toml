[package]
name = "win-git-status"
version = "0.1.0"
edition = "2021"
publish = false

[dependencies]
clap = "2.33"
git2 = { version = "0.13", default-features = false }
ignore = "0.4"
ntapi = "0.3"
pathdiff = "0.2"
rayon = "1.5"
termcolor = "1.1"
winapi = { version = "0.3", features = ["fileapi", "handleapi", "winbase", "winnt"] }
