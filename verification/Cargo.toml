[package]
name = "spin_deps"
version = "0.1.0"
edition = "2021"
publish = false

[dependencies]
anyhow = "=1.0.104"
clap = { version = "=4.6.7", features = ["derive", "env"] }
convert_case = "=0.12.0"
dialoguer = "=0.12.0"
futures = "=0.3.34"
indexmap = "*"
js-component-bindgen = "=2.9.0"
reqwest = { version = "*", default-features = false }
semver = "=1.0.28"
sha2 = "=0.11.0"
tokio = { version = "*", features = ["fs", "rt", "rt-multi-thread", "macros", "io-util"] }
toml_edit = "=0.25.16"
url = "=2.5.8"
wasm-pkg-client = "=0.16.1"
wasm-pkg-common = "=0.16.1"
wasmparser = "*"
wit-bindgen-core = "=0.62.0"
wit-bindgen-rust = "=0.62.0"
wit-component = "=0.254.2"
wit-parser = "=0.254.2"
