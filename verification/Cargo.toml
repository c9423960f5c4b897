[package]
name = "gpkg_render"
version = "0.1.0"
edition = "2021"
publish = false

[dependencies]
atty = "=0.2.14"
clap = { version = "=4.6.7", features = ["derive"] }
geo = "=0.33.1"
geo-traits = "=0.3.0"
geojson = "=1.0.0"
hex = "=0.4.3"
image = { version = "=0.25.10", default-features = false, features = ["png"] }
indicatif = "=0.18.6"
proj = "=0.27.2"
rayon = "=1.12.0"
sqlx = { version = "=0.9.0", default-features = false, features = ["sqlite", "runtime-tokio"] }
thiserror = "=2.0.21"
tokio = { version = "=1.53.2", features = ["macros", "rt-multi-thread"] }
wkb = "=0.9.2"
