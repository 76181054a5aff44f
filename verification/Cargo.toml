[package]
name = "reiss_mcpherson_effects"
version = "0.1.0"
edition = "2021"
publish = false

[dependencies]
truce = "*"
truce-gui = "*"
truce-gui-types = "*"
realfft = "*"
apodize = "*"
fastrand = "*"
