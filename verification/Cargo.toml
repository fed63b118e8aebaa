[package]
name = "rdf_glance"
version = "0.1.0"
edition = "2021"
publish = false

[dependencies]
string-interner = "*"
leb128 = "*"
byteorder = "*"
flate2 = "*"
anyhow = "*"
bimap = "*"
indexmap = "*"
egui = "*"
rand = "*"
