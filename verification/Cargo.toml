[package]
name = "fff_grep_core"
version = "0.1.0"
edition = "2021"
publish = false

[dependencies]
aho-corasick = "1"
memchr = "2"
rayon = "1"
regex = "1"
smallvec = "1"
tracing = "0.1"
