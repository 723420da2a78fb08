[package]
name = "kisekifs"
version = "0.1.0"
edition = "2021"
publish = false

[dependencies]
async-trait = "0.1"
bincode = "1"
bytes = "1"
clap = { version = "4", features = ["derive"] }
crossbeam-queue = "0.3"
dashmap = "5"
fmmap = "0.3"
fuser = { version = "0.14", default-features = false }
futures = "0.3"
libc = "0.2"
object_store = "0.9"
opendal = { version = "0.45", default-features = false }
rangemap = "1"
serde = { version = "1", features = ["derive"] }
snafu = "0.8"
sonyflake = "0.2"
tokio = { version = "1", features = ["full"] }
tokio-util = "0.7"
tracing = "0.1"
