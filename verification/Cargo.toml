[package]
name = "schema_ir"
version = "0.1.0"
edition = "2021"
publish = false

[dependencies]
async-graphql = "*"
serde_json = "*"
