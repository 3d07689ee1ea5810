[package]
name = "mesh_localization"
version = "0.1.0"
edition = "2021"
publish = false

[dependencies]
fixed = { version = "=1.31.0", features = ["serde"] }
cordic = "=0.1.5"
heapless = { version = "=0.8.0", features = ["serde"] }
hashbrown = "=0.15.5"
libm = "=0.2.16"
serde = { version = "=1.0.229", features = ["derive"] }
postcard = { version = "=1.1.3", features = ["alloc"] }
ratatui = "=0.30.2"
crossterm = "=0.29.0"
color-eyre = "=0.6.5"
rumqttc = { version = "=0.25.1", default-features = false }
actix-web = { version = "=4.18.1", default-features = false, features = ["macros"] }
prometheus-client = "=0.25.2"
log = "=0.4.35"
mousefood = "*"
ssd1306 = "*"
embedded-graphics = "*"
display-interface = "*"
embedded-hal = "1"
