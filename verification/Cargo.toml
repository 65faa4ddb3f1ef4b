[package]
name = "unicode_segmentation"
version = "0.1.0"
edition = "2021"
publish = false

[dependencies]
icu_properties = "=2.3.0"
