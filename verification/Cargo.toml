[package]
name = "ttl_convert"
version = "0.1.0"
edition = "2021"
publish = false

[dependencies]
xml2rdf = "=0.1.1"
json2rdf = "=0.1.2"
oxrdf = "=0.3.5"
wasm-bindgen = "=0.2.129"
