[package]
name = "segment_index"
version = "0.1.0"
edition = "2021"
publish = false

[dependencies]
byteorder = "1"
fst = "0.4"
tantivy-fst = "*"
