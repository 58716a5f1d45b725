[package]
name = "eight_deep_parser"
version = "0.1.0"
edition = "2021"

[dependencies]
indexmap = "2"
nom = "7"
thiserror = "1"
