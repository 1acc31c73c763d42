[package]
name = "turboquant"
version = "0.1.0"
edition = "2021"
publish = false

[dependencies]
arrow = { version = "56", default-features = false }
arrow-array = "56"
arrow-schema = "56"
async-trait = "0.1"
bytes = "1"
deepsize = "0.2"
libm = "0.2"
ndarray = "0.16"
num-traits = "0.2"
prost = "0.13"
rand = "0.9"
rand_distr = "0.5"
serde = { version = "1", features = ["derive"] }
serde_json = "1"
tracing = "0.1"
