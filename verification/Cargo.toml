[package]
name = "strong_ipc"
version = "0.1.0"
edition = "2021"
publish = false

[dependencies]
dashmap = "6"
smallvec = "1"
libc = "0.2"
tokio-seqpacket = "*"
tokio = { version = "1", features = ["rt", "rt-multi-thread", "sync", "net", "time", "macros"] }
tokio-util = { version = "0.7", features = ["rt"] }
rustix = { version = "1", features = ["net", "fs", "event", "process"] }
