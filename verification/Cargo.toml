[package]
name = "dotgrid"
version = "0.1.0"
edition = "2021"
publish = false

[dependencies]
csv = "*"
rand = "0.8"
rstar = "*"
i_overlay = "*"
anyhow = "*"
axum = "*"
clap = { version = "*", features = ["derive"] }
geo = "*"
geojson = "*"
image = "*"
rayon = "*"
serde = { version = "*", features = ["derive"] }
serde_json = "*"
shapefile = { version = "*", features = ["geo-types"] }
tokio = { version = "*", features = ["full"] }
toml = "*"
tower-http = { version = "*", features = ["fs", "cors"] }
tracing-subscriber = "*"
