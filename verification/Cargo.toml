[package]
name = "librho"
version = "0.1.0"
edition = "2021"
publish = false

[dependencies]
bitvec = "1"
fixedbitset = "0.5"
indexmap = "2"
intmap = "*"
smallvec = "1"
as-any = "*"
nonempty-collections = "*"
tokio = { version = "1", features = ["rt-multi-thread", "macros"] }
async-scoped = { version = "*", features = ["use-tokio"] }
