[package]
name = "owl2_reasoner"
version = "0.1.0"
edition = "2021"
publish = false

[dependencies]
num_cpus = "=1.17.0"
rand = "=0.8.8"
rio_api = "0.8"
rio_xml = "0.8"
oxiri = "0.2"
quick-xml = "0.31"
