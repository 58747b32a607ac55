[package]
name = "mosaic"
version = "0.1.0"
edition = "2021"
publish = false

[dependencies]
array_tool = "=1.0.3"
fstr = "=0.2.22"
anyhow = "=1.0.104"
log = "=0.4.35"
env_logger = "=0.11.11"
ordered-multimap = "=0.7.3"
itertools = "*"
