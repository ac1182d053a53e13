[package]
name = "css_bundler"
version = "0.1.0"
edition = "2021"
publish = false

[dependencies]
cssparser = "0.29"
dashmap = "5"
parcel_sourcemap = "2"
rayon = "1"
