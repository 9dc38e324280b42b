[package]
name = "fm3_gfa"
version = "0.1.0"
edition = "2021"
publish = false

[dependencies]
petgraph = "*"
anyhow = "1"
clap = { version = "4", features = ["derive"] }
gfa = "*"
noodles = { version = "*", features = ["vcf"] }
indicatif = { version = "*", features = ["rayon"] }
rayon = "1"
serde = { version = "1", features = ["derive"] }
serde_json = "1"
pest = "2"
pest_derive = "2"
actix-web = { version = "4", default-features = false, features = ["macros"] }
actix-files = "*"
