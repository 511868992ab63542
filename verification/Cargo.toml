[package]
name = "magicvision"
version = "0.1.0"
edition = "2021"
publish = false

[dependencies]
arrayvec = "*"
image_hasher = "*"
uuid = { version = "*", features = ["v4", "serde"] }
image = { version = "*", default-features = false, features = ["jpeg", "png"] }
serde = { version = "*", features = ["derive"] }
serde_json = "*"
rayon = "*"
crossbeam = "*"
tokio = { version = "*", features = ["full"] }
futures = "*"
fastrand = "*"
governor = "*"
directories = "*"
reqwest = { version = "*", default-features = false, features = ["json"] }
opencv = "*"
egui = "*"
eframe = { version = "*", default-features = false, features = ["default_fonts", "glow", "x11"] }
egui_extras = { version = "*", default-features = false }
