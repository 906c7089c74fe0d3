[package]
name = "par_quicksort"
version = "0.1.0"
edition = "2021"
publish = false

[dependencies]
rayon = "1"
num = "0.4"
