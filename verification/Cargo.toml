[package]
name = "waydapt"
version = "0.1.0"
edition = "2021"
publish = false

[dependencies]
arrayvec = "0.7"
getopts = "0.2"
nix = { version = "0.29", features = ["signal", "process", "pthread"] }
num_threads = "0.1"
quick-xml = "0.31"
rustix = { version = "0.38", features = ["event", "fs", "net", "process"] }
smallvec = "1"
