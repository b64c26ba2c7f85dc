[package]
name = "incremental_tree_set_union"
version = "0.1.0"
edition = "2021"
publish = false

[dependencies]
arbitrary = { version = "1", features = ["derive"] }
libfuzzer-sys = "0.4"

[dev-dependencies]
rand = "0.9"
