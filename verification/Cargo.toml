[package]
name = "cssom"
version = "0.1.0"
edition = "2021"
publish = false

[dependencies]
parcel_css = "=1.0.0-alpha.32"
parcel_selectors = "=0.24.5"
cssparser = "=0.29.6"
