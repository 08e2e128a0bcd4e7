[package]
name = "boat_link"
version = "0.1.0"
edition = "2021"
publish = false

[dependencies]
prost = "0.12"
prost-types = "0.12"
serialport = { version = "4", default-features = false }
rayon = "1"
log = "0.4"
serde = { version = "1", features = ["derive"] }
serde_json = "1"
chrono = { version = "0.4", features = ["serde"] }
geo-types = "0.7"
geojson = { version = "0.24", features = ["geo-types"] }
csv = "1"
flate2 = "1"
ctrlc = "3"
sqlx = { version = "0.7", default-features = false, features = ["sqlite", "runtime-tokio"] }
