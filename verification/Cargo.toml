[package]
name = "leptos_chartistry"
version = "0.1.0"
edition = "2021"
publish = false

[dependencies]
leptos = "0.6"
chrono = "0.4"
