[package]
name = "advent_puzzles"
version = "0.1.0"
edition = "2021"
publish = false

[dependencies]
itertools = "*"
regex = "*"
