[package]
name = "am_python"
version = "0.1.0"
edition = "2021"
publish = false

[dependencies]
libc = "=0.2.191"
log = "=0.4.35"
numpy = "=0.26.0"
pyo3 = "=0.26.0"
pyo3-log = "=0.13.5"
pyo3-stub-gen = "=0.22.4"
thiserror = "=2.0.21"
