[package]
name = "polygon_offset"
version = "0.1.0"
edition = "2021"
publish = false

[dependencies]
geo = "*"
geo-svg = "*"
geo-types = "*"
wkt = "*"
