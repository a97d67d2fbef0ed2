[package]
name = "libime_history_merge"
version = "0.1.0"
edition = "2021"
publish = false

[dependencies]
zstd = "*"
structopt = "*"
pager = "*"
edit = "*"
libc = "*"
pretty_env_logger = "*"
log = "*"
