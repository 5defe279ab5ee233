[package]
name = "comprs"
version = "0.1.0"
edition = "2021"
publish = false

[dependencies]
bitbit = "*"
rayon = "1"
varuint = "*"
clap = "2"
adler32 = "1"
log = "0.4"
