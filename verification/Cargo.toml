[package]
name = "datalog"
version = "0.1.0"
edition = "2021"
publish = false

[dependencies]
chumsky = "0.9"
clap = { version = "4", features = ["derive"] }
miette = { version = "5", features = ["fancy"] }
rustyline = "10"
