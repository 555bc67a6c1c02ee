[package]
name = "bend_bundler"
version = "0.1.0"
edition = "2021"
publish = false

[dependencies]
url = "*"
edn-rs = "*"
git2 = "*"
