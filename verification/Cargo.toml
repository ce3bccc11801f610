[package]
name = "train"
version = "0.1.0"
edition = "2021"
publish = false

[dependencies]
anyhow = "1"
console = "0.15"
crossbeam = "0.8"
indicatif = "0.16"
num_cpus = "1"
structopt = "0.3"
thiserror = "1"
threadpool = "1"
tracing = "0.1"
tracing-subscriber = "0.3"
ureq = "2"
url = "2"
