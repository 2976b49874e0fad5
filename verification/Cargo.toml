[package]
name = "document_id_store"
version = "0.1.0"
edition = "2021"
publish = false

[dependencies]
heed = "0.8"

[dev-dependencies]
tempfile = "3"
