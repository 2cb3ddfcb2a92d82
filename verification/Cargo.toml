[package]
name = "xml_json"
version = "0.1.0"
edition = "2021"
publish = false

[dependencies]
quick-xml = "=0.36.2"
serde_json = "=1.0.151"
