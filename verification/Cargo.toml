[package]
name = "bindgen_runner"
version = "0.1.0"
edition = "2021"
publish = false

[dependencies]
memchr = "*"
anyhow = "*"
bindgen = "*"
cargo_toml = "*"
clang-ast = "*"
serde = { version = "*", features = ["derive"] }
serde_json = "*"
serde_with = "*"
static_assertions = "*"
syn = { version = "*", features = ["full"] }
toml = "*"
try_match = "*"
