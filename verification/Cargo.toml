[package]
name = "redis_parser"
version = "0.1.0"
edition = "2021"

[dependencies]
nom = "7"
num-bigint = "0.4"
