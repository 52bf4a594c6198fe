[package]
name = "dump_syms"
version = "0.1.0"
edition = "2021"
publish = false

[dependencies]
pdb = "*"
pdb-addr2line = "*"
symbolic = { version = "*", default-features = false, features = ["demangle"] }
