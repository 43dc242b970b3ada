[package]
name = "zero_ecs"
version = "0.1.0"
edition = "2021"
publish = false

[dependencies]
convert_case = "*"
glob = "0.3"
itertools = "*"
proc-macro2 = "1"
quote = "1"
rayon = "1"
syn = { version = "2", features = ["full", "extra-traits"] }
