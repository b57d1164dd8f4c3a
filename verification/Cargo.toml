[package]
name = "leo_sim"
version = "0.1.0"
edition = "2021"
publish = false

[dependencies]
sgp4 = "=2.3.0"
serde = { version = "1", features = ["derive"] }
serde_json = "1"
rand = "0.8"
rand_distr = "0.4"
rayon = "1"
reqwest = { version = "0.12", default-features = false, features = ["blocking", "rustls-tls"] }
eframe = { version = "0.29", default-features = false, features = ["default_fonts", "glow", "x11"] }
egui_plot = "0.29"
