[package]
name = "elastic_buffered_stream"
version = "0.1.0"
edition = "2021"

[dependencies]
combine = "3"
