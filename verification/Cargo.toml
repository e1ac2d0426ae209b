[package]
name = "aoc2023"
version = "0.1.0"
edition = "2021"
publish = false

[dependencies]
itertools = "=0.15.0"
ndarray = "=0.17.2"
num = "=0.4.3"
petgraph = "=0.8.3"
polynomial = "=0.2.6"

