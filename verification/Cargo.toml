[package]
name = "loro_text"
version = "0.1.0"
edition = "2021"
publish = false

[dependencies]
append-only-bytes = "*"
fxhash = "0.2.1"
generic-btree = "*"
smallvec = "1"
