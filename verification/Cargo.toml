[package]
name = "typst4janim"
version = "0.1.0"
edition = "2021"
publish = false

[dependencies]
indexmap = "=2.14.2"
rustc-hash = "=2.1.3"
pyo3 = "=0.30.1"
numpy = "=0.30.0"
ndarray = "=0.17.2"
ttf-parser = "=0.25.1"
pathdiff = "=0.2.3"
typst = "=0.15.1"
typst-layout = "=0.15.1"
typst-utils = "=0.15.1"

[dependencies.typst-kit]
version = "=0.15.1"
features = ["embedded-fonts", "scan-fonts", "system-files", "system-packages", "universe-packages", "system-downloader", "datetime", "emit-diagnostics"]
