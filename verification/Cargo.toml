[package]
name = "mem_core"
version = "0.1.0"
edition = "2021"
publish = false

[dependencies]
fjall = "*"
knus = "*"
miette = "*"
thiserror = "*"
pyo3 = "*"
