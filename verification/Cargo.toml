[package]
name = "sched_alloc"
version = "0.1.0"
edition = "2021"
publish = false

[dependencies]
rand = "0.7"
libc = "0.2"
env_logger = { version = "0.7", default-features = false }
