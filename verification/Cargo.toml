[package]
name = "geo_index"
version = "0.1.0"
edition = "2021"
publish = false

[dependencies]
geo = "=0.31.0"
geo-traits = "=0.3.0"
thiserror = "=2.0.21"
float_next_after = "=1.0.0"
tinyvec = { version = "1", features = ["alloc"] }
