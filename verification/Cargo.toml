[package]
name = "goban"
version = "0.1.0"
edition = "2021"
publish = false

[dependencies]
arrayvec = "0.7"
rand = "0.9"
rand_xorshift = "0.4"
hash_hasher = "2"
oxymcts = "*"
libc = "0.2"
