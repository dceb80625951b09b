[package]
name = "reactive_sort"
version = "0.1.0"
edition = "2021"
publish = false

[dependencies]
leptos = { version = "0.8", default-features = false }
