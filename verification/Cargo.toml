[package]
name = "projection_pushdown"
version = "0.1.0"
edition = "2021"
publish = false

[dependencies]
arrow = { version = "=59.3.2", default-features = false }
datafusion-common = { version = "=55.2.0", default-features = false }
datafusion-physical-expr = { version = "=55.2.0", default-features = false }
datafusion-physical-expr-common = { version = "=55.2.0", default-features = false }
datafusion-physical-plan = { version = "=55.2.0", default-features = false }
