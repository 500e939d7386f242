[package]
name = "json2rdf"
version = "0.1.0"
edition = "2021"
publish = false

[dependencies]
oxrdf = "0.3"
serde_json = "1"
urlencoding = "2"

[dev-dependencies]
oxrdfio = "0.2"
