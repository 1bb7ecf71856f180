[package]
name = "bridge-core"
version = "0.1.0"
edition = "2021"
publish = false

[dependencies]
ahash = "*"
async-trait = "*"
clap = { version = "*", features = ["derive"] }
comfy-table = "*"
csv = "*"
futures = "*"
indicatif = "*"
inquire = "*"
itertools = "*"
lazy_static = "*"
libc = "*"
log = "*"
maplit = "*"
rdkafka = "*"
regex = "*"
serde = { version = "*", features = ["derive"] }
strum = { version = "*", features = ["derive"] }
thiserror = "*"
tokio = { version = "*", features = ["full"] }
tracing = "*"
tracing-subscriber = { version = "*", features = ["env-filter"] }
ulid = "*"
