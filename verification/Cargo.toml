[package]
name = "dfa_learning_toolkit"
version = "0.1.0"
edition = "2021"
publish = false

[dependencies]
tabwriter = "1"
serde_json = "1"
