[package]
name = "dsp_utils"
version = "0.1.0"
edition = "2021"
publish = false

[dependencies]
creek = "=1.2.3"
egui = { version = "=0.34.3", default-features = false }
image = "=0.25.10"
lazy_static = "=1.5.1"
nih_plug_core = "=0.1.2"
nih_plug_egui = "=0.1.2"
plotters = "=0.3.7"
