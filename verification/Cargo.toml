[package]
name = "storage_engine"
version = "0.1.0"
edition = "2021"
publish = false

[dependencies]
sha2 = "=0.10.9"
hex = "=0.4.3"
ic-cdk = "=0.20.3"
ic_principal = "=0.1.5"
candid = "=0.10.37"
serde = "=1.0.229"
uuid = "=1.27.0"
time = { version = "=0.3.55", features = ["formatting", "parsing"] }
