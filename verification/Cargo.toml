[package]
name = "adhoc_sim"
version = "0.1.0"
edition = "2021"
publish = false

[dependencies]
rand = "0.8"
rand_distr = "0.4"
tokio = { version = "1", default-features = false, features = ["sync", "rt", "rt-multi-thread", "macros", "time"] }
log = "0.4"
env_logger = "0.10"
envmnt = "0.10"
euclid = "0.22"
