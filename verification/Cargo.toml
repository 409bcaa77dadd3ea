[package]
name = "geo_buf"
version = "0.1.0"
edition = "2021"
publish = false

[dependencies]
geo = "0.29.3"
geo-types = "0.7"
